//! A raster of RGBA pixels and the shapes drawn on it.
use vstd::prelude::*;

verus! {

/// A point of the plane, `(x, y)`, with `y` growing downwards.
pub type Point = (isize, isize);

/// A pixel buffer of `w` by `h` pixels, row-major, top row first.
#[derive(Debug)]
pub struct Canvas {
    pub data: Vec<u32>,
    pub w: u32,
    pub h: u32,
    pub stride: u32,
}

/// The index of pixel `(x, y)` in a row-major buffer `w` pixels wide.
pub open spec fn at(w: u32, x: int, y: int) -> int {
    y * w + x
}

/// Pixel `(x, y)` lies on a canvas of `w` by `h` pixels.
pub open spec fn on_canvas(w: u32, h: u32, x: int, y: int) -> bool {
    0 <= x < w && 0 <= y < h
}

/// How a pixel is painted.
#[derive(Clone, Copy)]
pub enum Brush {
    /// With one colour.
    Solid(u32),
    /// With a random colour of full alpha range.
    Random,
    /// With the colour of the octant, around the centre, that the pixel lies in.
    Octants(Point),
}

/// The brush for `colour`, or for random colours when `random` is set.
pub open spec fn brush_for(colour: u32, random: bool) -> Brush {
    if random {
        Brush::Random
    } else {
        Brush::Solid(colour)
    }
}

/// `v` is what brush `b` paints at pixel `(x, y)`.
pub open spec fn brush_gives(b: Brush, x: int, y: int, v: u32) -> bool {
    match b {
        Brush::Solid(c) => v == c,
        Brush::Random => v >= 0xFF,
        Brush::Octants(cp) => v == octant_colour(cp, x, y),
    }
}

pub const DRRED: u32 = 0xFF5555FF;
pub const DRORANGE: u32 = 0xFFB86CFF;
pub const DRYELLOW: u32 = 0xF1FA8CFF;
pub const DRGREEN: u32 = 0x50FA7BFF;
pub const DRPURPLE: u32 = 0xBD93F9FF;
pub const DRCYAN: u32 = 0x8BE9FDFF;
pub const DRPINK: u32 = 0xFF79C6FF;

/// The octant of the direction `(dx, dy)`, counted from 0 at the positive x
/// axis: a half-turn flip adds 4, a quarter-turn adds 2, and the steeper half
/// of the remaining quadrant adds 1.
pub open spec fn octant_of(dx: int, dy: int) -> int {
    let (dx1, dy1, o1) = if dy < 0 {
        (-dx, -dy, 4int)
    } else {
        (dx, dy, 0int)
    };
    let (dx2, dy2, o2) = if dx1 < 0 {
        (dy1, -dx1, o1 + 2)
    } else {
        (dx1, dy1, o1)
    };
    if dx2 < dy2 {
        o2 + 1
    } else {
        o2
    }
}

/// The colour of octant `o`.
pub open spec fn octant_palette(o: int) -> u32 {
    if o == 0 {
        DRRED
    } else if o == 1 {
        DRORANGE
    } else if o == 2 {
        DRYELLOW
    } else if o == 3 {
        DRGREEN
    } else if o == 4 {
        DRCYAN
    } else if o == 5 {
        DRPURPLE
    } else if o == 6 {
        DRPINK
    } else {
        0xFFFFFFFF
    }
}

pub open spec fn abs(v: int) -> int {
    if v < 0 {
        -v
    } else {
        v
    }
}

/// The colour of pixel `(x, y)` in a circle of octants around `cp`: black on
/// the axes and diagonals through `cp`, else the colour of its octant.
pub open spec fn octant_colour(cp: Point, x: int, y: int) -> u32 {
    if x == cp.0 || y == cp.1 || abs(cp.0 - x) == abs(cp.1 - y) {
        0xFF
    } else {
        octant_palette(octant_of(x - cp.0, y - cp.1))
    }
}

/// The octant of the direction `(dx, dy)`.
fn octant_of_delta(dx: i128, dy: i128) -> (o: u8)
    requires
        -0x1_0000_0000_0000_0000 <= dx <= 0x1_0000_0000_0000_0000,
        -0x1_0000_0000_0000_0000 <= dy <= 0x1_0000_0000_0000_0000,
    ensures
        o == octant_of(dx as int, dy as int),
        o < 8,
{
    let (mut dx, mut dy) = (dx, dy);
    let mut octant: u8 = 0;
    if dy < 0 {
        dx = -dx;
        dy = -dy;
        octant = octant + 4;
    }
    if dx < 0 {
        let t = dx;
        dx = dy;
        dy = -t;
        octant = octant + 2;
    }
    if dx < dy {
        octant = octant + 1;
    }
    octant
}

/// The octant, around `p1`, of the direction from `p1` to `p2`.
pub fn octant(p1: Point, p2: Point) -> (o: u8)
    ensures
        o == octant_of(p2.0 - p1.0, p2.1 - p1.1),
        o < 8,
{
    octant_of_delta(p2.0 as i128 - p1.0 as i128, p2.1 as i128 - p1.1 as i128)
}

/// The step, one pixel along each axis, that heads into octant `octant`.
pub fn octant_to_d(octant: u8) -> (d: Point)
    requires
        octant < 8,
    ensures
        d == (if octant < 2 {
            (1isize, 1isize)
        } else if octant < 4 {
            (-1isize, 1isize)
        } else if octant < 6 {
            (-1isize, -1isize)
        } else {
            (1isize, -1isize)
        }),
{
    match octant {
        0 | 1 => (1, 1),
        2 | 3 => (-1, 1),
        4 | 5 => (-1, -1),
        _ => (1, -1),
    }
}

fn abs_wide(v: i128) -> (r: i128)
    requires
        v > i128::MIN,
    ensures
        r == abs(v as int),
{
    if v < 0 {
        -v
    } else {
        v
    }
}

/// Distinct pixels of a canvas have distinct indices, inside the buffer.
pub proof fn lemma_at(w: u32, h: u32, x: int, y: int, x0: int, y0: int)
    requires
        on_canvas(w, h, x, y),
        on_canvas(w, h, x0, y0),
    ensures
        0 <= at(w, x, y) < w * h,
        at(w, x, y) == at(w, x0, y0) <==> (x == x0 && y == y0),
{
    assert(0 <= y * w + x < w * h) by (nonlinear_arith)
        requires
            0 <= x < w,
            0 <= y < h,
    ;
    if y < y0 {
        assert(y * w + x < y0 * w + x0) by (nonlinear_arith)
            requires
                0 <= x < w,
                0 <= x0,
                y < y0,
        ;
    } else if y0 < y {
        assert(y0 * w + x0 < y * w + x) by (nonlinear_arith)
            requires
                0 <= x0 < w,
                0 <= x,
                y0 < y,
        ;
    }
}

/// Relies on rand's `Rng::gen_range` over an inclusive range of `u32`, which
/// returns a value of that range.
#[verifier::external_body]
fn random_colour() -> (r: u32)
    ensures
        r >= 0xFF,
{
    rand::Rng::gen_range(&mut rand::thread_rng(), 0xFFu32..=0xFFFF_FFFFu32)
}

/// Relies on rand's `Rng::gen_range` over an inclusive range of `isize`, which
/// returns a value of that range and panics when it is empty.
#[verifier::external_body]
fn random_radius(r: isize) -> (s: isize)
    requires
        r >= 1,
    ensures
        1 <= s <= r,
{
    rand::Rng::gen_range(&mut rand::thread_rng(), 1..=r)
}

impl Canvas {
    /// The buffer holds one pixel per place and rows are `w` pixels apart.
    pub open spec fn wf(&self) -> bool {
        self.data@.len() == self.w * self.h && self.stride == self.w
    }

    /// The colour of pixel `(x, y)`.
    pub open spec fn pixel(&self, x: int, y: int) -> u32 {
        self.data@[at(self.w, x, y)]
    }

    /// A canvas of `w` by `h` pixels, all of `colour`.
    pub fn new(colour: u32, w: u32, h: u32) -> (c: Canvas)
        requires
            w * h <= usize::MAX,
        ensures
            c.wf(),
            c.w == w,
            c.h == h,
            forall|i: int| 0 <= i < c.data@.len() ==> #[trigger] c.data@[i] == colour,
    {
        let n: usize = w as usize * h as usize;
        Canvas { data: vec![colour; n], w, h, stride: w }
    }

    /// Paints every pixel `colour`.
    pub fn fill(&mut self, colour: u32)
        requires
            old(self).wf(),
            old(self).w * old(self).h <= usize::MAX,
        ensures
            final(self).wf(),
            final(self).w == old(self).w,
            final(self).h == old(self).h,
            forall|i: int| 0 <= i < final(self).data@.len() ==> #[trigger] final(self).data@[i] == colour,
    {
        self.data = vec![colour; self.w as usize * self.h as usize];
    }

    /// Paints pixel `(x, y)`.
    pub fn set_pixel(&mut self, x: u32, y: u32, colour: u32)
        requires
            old(self).wf(),
            x < old(self).w,
            y < old(self).h,
        ensures
            final(self).wf(),
            final(self).w == old(self).w,
            final(self).h == old(self).h,
            final(self).data@ == old(self).data@.update(at(old(self).w, x as int, y as int), colour),
    {
        proof {
            lemma_at(self.w, self.h, x as int, y as int, x as int, y as int);
        }
        let len: usize = self.data.len();
        assert(x + y * self.w < len);
        let i: usize = x as usize + y as usize * self.w as usize;
        self.data.set(i, colour);
    }

    /// Paints pixel `(x, y)` with brush `b`.
    fn paint(&mut self, x: u32, y: u32, b: Brush)
        requires
            old(self).wf(),
            x < old(self).w,
            y < old(self).h,
        ensures
            final(self).wf(),
            final(self).w == old(self).w,
            final(self).h == old(self).h,
            final(self).data@.len() == old(self).data@.len(),
            brush_gives(b, x as int, y as int, final(self).pixel(x as int, y as int)),
            forall|px: int, py: int|
                on_canvas(old(self).w, old(self).h, px, py) && (px != x || py != y)
                    ==> #[trigger] final(self).pixel(px, py) == old(self).pixel(px, py),
    {
        let v = match b {
            Brush::Solid(c) => c,
            Brush::Random => random_colour(),
            Brush::Octants(cp) => {
                let xi = x as i128;
                let yi = y as i128;
                let cx = cp.0 as i128;
                let cy = cp.1 as i128;
                if xi == cx || yi == cy || abs_wide(cx - xi) == abs_wide(cy - yi) {
                    0xFF
                } else {
                    let o = octant_of_delta(xi - cx, yi - cy);
                    if o == 0 {
                        DRRED
                    } else if o == 1 {
                        DRORANGE
                    } else if o == 2 {
                        DRYELLOW
                    } else if o == 3 {
                        DRGREEN
                    } else if o == 4 {
                        DRCYAN
                    } else if o == 5 {
                        DRPURPLE
                    } else if o == 6 {
                        DRPINK
                    } else {
                        0xFFFFFFFF
                    }
                }
            },
        };
        self.set_pixel(x, y, v);
        proof {
            lemma_at(self.w, self.h, x as int, y as int, x as int, y as int);
            assert forall|px: int, py: int|
                on_canvas(self.w, self.h, px, py) && (px != x || py != y) implies #[trigger] self.pixel(
                px,
                py,
            ) == old(self).pixel(px, py) by {
                lemma_at(self.w, self.h, px, py, x as int, y as int);
            }
        }
    }

    /// Paints every pixel of columns `x0..x1` and rows `y0..y1`.
    fn fill_region(&mut self, x0: u32, x1: u32, y0: u32, y1: u32, b: Brush)
        requires
            old(self).wf(),
            x0 <= x1 <= old(self).w,
            y0 <= y1 <= old(self).h,
        ensures
            final(self).wf(),
            final(self).w == old(self).w,
            final(self).h == old(self).h,
            forall|px: int, py: int|
                on_canvas(old(self).w, old(self).h, px, py) ==> if x0 <= px < x1 && y0 <= py < y1 {
                    brush_gives(b, px, py, #[trigger] final(self).pixel(px, py))
                } else {
                    final(self).pixel(px, py) == old(self).pixel(px, py)
                },
    {
        let ghost start = *self;
        let mut y: u32 = y0;
        while y < y1
            invariant
                self.wf(),
                self.w == start.w,
                self.h == start.h,
                y0 <= y <= y1 <= self.h,
                x0 <= x1 <= self.w,
                forall|px: int, py: int|
                    on_canvas(start.w, start.h, px, py) ==> if x0 <= px < x1 && y0 <= py < y {
                        brush_gives(b, px, py, #[trigger] self.pixel(px, py))
                    } else {
                        self.pixel(px, py) == start.pixel(px, py)
                    },
            decreases y1 - y,
        {
            let mut x: u32 = x0;
            while x < x1
                invariant
                    self.wf(),
                    self.w == start.w,
                    self.h == start.h,
                    y0 <= y < y1 <= self.h,
                    x0 <= x <= x1 <= self.w,
                    forall|px: int, py: int|
                        on_canvas(start.w, start.h, px, py) ==> if (x0 <= px < x1 && y0 <= py < y)
                            || (py == y && x0 <= px < x) {
                            brush_gives(b, px, py, #[trigger] self.pixel(px, py))
                        } else {
                            self.pixel(px, py) == start.pixel(px, py)
                        },
                decreases x1 - x,
            {
                self.paint(x, y, b);
                x = x + 1;
            }
            y = y + 1;
        }
    }

    /// Paints the disc of centre `cp` and radius `r`, clipped to the canvas.
    fn fill_disc(&mut self, cp: Point, r: isize, b: Brush)
        requires
            old(self).wf(),
        ensures
            final(self).wf(),
            final(self).w == old(self).w,
            final(self).h == old(self).h,
            disc_painted(*old(self), *final(self), cp, r as int, b),
    {
        let ghost start = *self;
        if r <= 0 {
            return;
        }
        let cx = cp.0 as i128;
        let cy = cp.1 as i128;
        let rr = r as i128;
        let x0 = clamp_wide(cx - rr, self.w);
        let x1 = clamp_wide(cx + rr, self.w);
        let y0 = clamp_wide(cy - rr, self.h);
        let y1 = clamp_wide(cy + rr, self.h);
        if x0 >= x1 || y0 >= y1 {
            proof {
                assert forall|px: int, py: int| on_canvas(start.w, start.h, px, py) implies !in_disc(
                    cp,
                    r as int,
                    px,
                    py,
                ) by {
                    if px - cp.0 >= r || px - cp.0 <= -r {
                        lemma_far_from_centre(px - cp.0, r as int);
                    } else {
                        lemma_far_from_centre(py - cp.1, r as int);
                    }
                    assert((py - cp.1) * (py - cp.1) >= 0 && (px - cp.0) * (px - cp.0) >= 0)
                        by (nonlinear_arith);
                }
            }
            return;
        }
        let mut y: u32 = y0;
        while y < y1
            invariant
                self.wf(),
                self.w == start.w,
                self.h == start.h,
                y0 <= y <= y1 <= self.h,
                x0 < x1 <= self.w,
                cx == cp.0,
                cy == cp.1,
                rr == r,
                0 < r,
                cx - rr <= x0 && x1 <= cx + rr,
                cy - rr <= y0 && y1 <= cy + rr,
                forall|px: int, py: int|
                    on_canvas(start.w, start.h, px, py) ==> if x0 <= px < x1 && y0 <= py < y
                        && in_disc(cp, r as int, px, py) {
                        brush_gives(b, px, py, #[trigger] self.pixel(px, py))
                    } else {
                        self.pixel(px, py) == start.pixel(px, py)
                    },
            decreases y1 - y,
        {
            let mut x: u32 = x0;
            while x < x1
                invariant
                    self.wf(),
                    self.w == start.w,
                    self.h == start.h,
                    y0 <= y < y1 <= self.h,
                    x0 <= x <= x1 <= self.w,
                    cx == cp.0,
                    cy == cp.1,
                    rr == r,
                    0 < r,
                    cx - rr <= x0 && x1 <= cx + rr,
                    cy - rr <= y0 && y1 <= cy + rr,
                    forall|px: int, py: int|
                        on_canvas(start.w, start.h, px, py) ==> if ((x0 <= px < x1 && y0 <= py < y)
                            || (py == y && x0 <= px < x)) && in_disc(cp, r as int, px, py) {
                            brush_gives(b, px, py, #[trigger] self.pixel(px, py))
                        } else {
                            self.pixel(px, py) == start.pixel(px, py)
                        },
                decreases x1 - x,
            {
                let dx: i128 = x as i128 - cx;
                let dy: i128 = y as i128 - cy;
                assert(0 <= dx * dx <= rr * rr && 0 <= dy * dy <= rr * rr && rr * rr
                    <= 0x3FFF_FFFF_FFFF_FFFF_0000_0000_0000_0001) by (nonlinear_arith)
                    requires
                        -rr <= dx <= rr,
                        -rr <= dy <= rr,
                        0 < rr < 0x8000_0000_0000_0000,
                ;
                if dx * dx + dy * dy < rr * rr {
                    self.paint(x, y, b);
                }
                x = x + 1;
            }
            y = y + 1;
        }
        proof {
            assert forall|px: int, py: int|
                on_canvas(start.w, start.h, px, py) && in_disc(cp, r as int, px, py) implies x0
                <= px < x1 && y0 <= py < y1 by {
                if !(x0 <= px < x1) {
                    lemma_far_from_centre(px - cp.0, r as int);
                    assert((py - cp.1) * (py - cp.1) >= 0) by (nonlinear_arith);
                }
                if !(y0 <= py < y1) {
                    lemma_far_from_centre(py - cp.1, r as int);
                    assert((px - cp.0) * (px - cp.0) >= 0) by (nonlinear_arith);
                }
            }
        }
    }

    /// Paints the disc of centre `cp` and radius `r` (or a random radius from 1
    /// to `r` when `randr` is set) with `colour` (or random colours when `randc` is set).
    pub fn set_circle(&mut self, cp: Point, r: isize, colour: u32, randc: bool, randr: bool)
        requires
            old(self).wf(),
            randr ==> r >= 1,
        ensures
            final(self).wf(),
            final(self).w == old(self).w,
            final(self).h == old(self).h,
            !randr ==> disc_painted(*old(self), *final(self), cp, r as int, brush_for(colour, randc)),
            randr ==> exists|s: int|
                1 <= s <= r && disc_painted(*old(self), *final(self), cp, s, brush_for(colour, randc)),
    {
        let radius = if !randr {
            r
        } else {
            random_radius(r)
        };
        self.fill_disc(cp, radius, if randc {
            Brush::Random
        } else {
            Brush::Solid(colour)
        });
        assert(randr ==> 1 <= radius <= r);
    }

    /// Paints the disc of centre `cp` and radius `r`, clipped to the canvas, in
    /// the colours of its octants around `cp`.
    pub fn octantcircle(&mut self, cp: Point, r: isize)
        requires
            old(self).wf(),
        ensures
            final(self).wf(),
            final(self).w == old(self).w,
            final(self).h == old(self).h,
            disc_painted(*old(self), *final(self), cp, r as int, Brush::Octants(cp)),
    {
        self.fill_disc(cp, r, Brush::Octants(cp));
    }

    /// Colours every pixel after its nearest site of `points` by Manhattan
    /// distance; of sites at the same distance the last one wins.
    pub fn voronoi_manhattan(&mut self, points: &[(Point, u32)])
        requires
            old(self).wf(),
        ensures
            final(self).wf(),
            final(self).w == old(self).w,
            final(self).h == old(self).h,
            forall|px: int, py: int|
                on_canvas(old(self).w, old(self).h, px, py) ==> #[trigger] final(self).pixel(px, py)
                    == nearest(points@, px, py).1,
    {
        let ghost start = *self;
        let mut y: u32 = 0;
        while y < self.h
            invariant
                self.wf(),
                self.w == start.w,
                self.h == start.h,
                y <= self.h,
                forall|px: int, py: int|
                    on_canvas(start.w, start.h, px, py) && py < y ==> #[trigger] self.pixel(px, py)
                        == nearest(points@, px, py).1,
            decreases self.h - y,
        {
            let mut x: u32 = 0;
            while x < self.w
                invariant
                    self.wf(),
                    self.w == start.w,
                    self.h == start.h,
                    y < self.h,
                    x <= self.w,
                    forall|px: int, py: int|
                        on_canvas(start.w, start.h, px, py) && (py < y || (py == y && px < x))
                            ==> #[trigger] self.pixel(px, py) == nearest(points@, px, py).1,
                decreases self.w - x,
            {
                let colour = nearest_colour(points, x, y);
                self.paint(x, y, Brush::Solid(colour));
                x = x + 1;
            }
            y = y + 1;
        }
    }

    /// Paints the triangle of corners `a`, `b` and `c`, clipped to the canvas.
    pub fn set_triangle(&mut self, a: Point, b: Point, c: Point, colour: u32, rand: bool)
        requires
            old(self).wf(),
            small_point(a),
            small_point(b),
            small_point(c),
        ensures
            final(self).wf(),
            final(self).w == old(self).w,
            final(self).h == old(self).h,
            forall|px: int, py: int|
                on_canvas(old(self).w, old(self).h, px, py) ==> if in_triangle(a, b, c, px, py) {
                    brush_gives(brush_for(colour, rand), px, py, #[trigger] final(self).pixel(px, py))
                } else {
                    final(self).pixel(px, py) == old(self).pixel(px, py)
                },
    {
        let ghost start = *self;
        let brush = if rand {
            Brush::Random
        } else {
            Brush::Solid(colour)
        };
        let x0 = clamp(min3_exec(a.0, b.0, c.0), self.w);
        let x1 = clamp(max3_exec(a.0, b.0, c.0), self.w);
        let y0 = clamp(min3_exec(a.1, b.1, c.1), self.h);
        let y1 = clamp(max3_exec(a.1, b.1, c.1), self.h);
        assert forall|px: int, py: int|
            on_canvas(start.w, start.h, px, py) && in_triangle(a, b, c, px, py) implies x0 <= px
            < x1 && y0 <= py < y1 by {}
        let ghost xmin = min3(a.0 as int, b.0 as int, c.0 as int);
        let ghost xmax = max3(a.0 as int, b.0 as int, c.0 as int);
        let ghost ymin = min3(a.1 as int, b.1 as int, c.1 as int);
        let ghost ymax = max3(a.1 as int, b.1 as int, c.1 as int);
        assert(x0 < x1 ==> xmin <= x0 && x1 <= xmax);
        assert(y0 < y1 ==> ymin <= y0 && y1 <= ymax);
        let mut y: u32 = y0;
        while y < y1
            invariant
                self.wf(),
                self.w == start.w,
                self.h == start.h,
                y0 <= y,
                y1 <= self.h,
                x1 <= self.w,
                small_point(a),
                small_point(b),
                small_point(c),
                x0 < x1 ==> xmin <= x0 && x1 <= xmax,
                y0 < y1 ==> ymin <= y0 && y1 <= ymax,
                xmin == min3(a.0 as int, b.0 as int, c.0 as int),
                xmax == max3(a.0 as int, b.0 as int, c.0 as int),
                ymin == min3(a.1 as int, b.1 as int, c.1 as int),
                ymax == max3(a.1 as int, b.1 as int, c.1 as int),
                forall|px: int, py: int|
                    on_canvas(start.w, start.h, px, py) && in_triangle(a, b, c, px, py) ==> x0
                        <= px < x1 && y0 <= py < y1,
                forall|px: int, py: int|
                    on_canvas(start.w, start.h, px, py) ==> if in_triangle(a, b, c, px, py) && py
                        < y {
                        brush_gives(brush, px, py, #[trigger] self.pixel(px, py))
                    } else {
                        self.pixel(px, py) == start.pixel(px, py)
                    },
            decreases y1 - y,
        {
            let mut x: u32 = x0;
            while x < x1
                invariant
                    self.wf(),
                    self.w == start.w,
                    self.h == start.h,
                    y0 <= y < y1 <= self.h,
                    x0 <= x,
                    x1 <= self.w,
                    small_point(a),
                    small_point(b),
                    small_point(c),
                    x0 < x1 ==> xmin <= x0 && x1 <= xmax,
                    ymin <= y0 && y1 <= ymax,
                    xmin == min3(a.0 as int, b.0 as int, c.0 as int),
                    xmax == max3(a.0 as int, b.0 as int, c.0 as int),
                    ymin == min3(a.1 as int, b.1 as int, c.1 as int),
                    ymax == max3(a.1 as int, b.1 as int, c.1 as int),
                    forall|px: int, py: int|
                        on_canvas(start.w, start.h, px, py) && in_triangle(a, b, c, px, py) ==> x0
                            <= px < x1 && y0 <= py < y1,
                    forall|px: int, py: int|
                        on_canvas(start.w, start.h, px, py) ==> if in_triangle(a, b, c, px, py) && (
                        py < y || (py == y && px < x)) {
                            brush_gives(brush, px, py, #[trigger] self.pixel(px, py))
                        } else {
                            self.pixel(px, py) == start.pixel(px, py)
                        },
                decreases x1 - x,
            {
                let t = side_test(a, b, x, y);
                if t != side_test(a, c, x, y) && side_test(b, c, x, y) == t {
                    self.paint(x, y, brush);
                }
                x = x + 1;
            }
            y = y + 1;
        }
    }

    /// Paints the line from `p1` to `p2` that Bresenham's algorithm draws.
    pub fn set_line(&mut self, p1: Point, p2: Point, colour: u32, rand: bool)
        requires
            old(self).wf(),
            on_canvas(old(self).w, old(self).h, p1.0 as int, p1.1 as int),
            on_canvas(old(self).w, old(self).h, p2.0 as int, p2.1 as int),
        ensures
            final(self).wf(),
            final(self).w == old(self).w,
            final(self).h == old(self).h,
            forall|px: int, py: int|
                on_canvas(old(self).w, old(self).h, px, py) ==> if on_line(p1, p2, px, py) {
                    brush_gives(brush_for(colour, rand), px, py, #[trigger] final(self).pixel(px, py))
                } else {
                    final(self).pixel(px, py) == old(self).pixel(px, py)
                },
    {
        let ghost start = *self;
        let brush = if rand {
            Brush::Random
        } else {
            Brush::Solid(colour)
        };
        let ghost gdx = abs(p2.0 - p1.0);
        let ghost gdy = abs(p2.1 - p1.1);
        let dx: i128 = abs_wide(p2.0 as i128 - p1.0 as i128);
        let dy: i128 = abs_wide(p2.1 as i128 - p1.1 as i128);
        let (sx, sy) = octant_to_d(octant(p1, p2));
        let sx = sx as i128;
        let sy = sy as i128;
        let mut err: i128 = dx - dy;
        let mut cx: i128 = p1.0 as i128;
        let mut cy: i128 = p1.1 as i128;
        let ghost mut k: nat = 0;
        let ghost mut mx: int = 0;
        let ghost mut my: int = 0;
        self.paint(cx as u32, cy as u32, brush);
        proof {
            assert forall|px: int, py: int| on_canvas(start.w, start.h, px, py) implies if drawn_within(
                p1,
                p2,
                0,
                px,
                py,
            ) {
                brush_gives(brush, px, py, #[trigger] self.pixel(px, py))
            } else {
                self.pixel(px, py) == start.pixel(px, py)
            } by {
                if drawn_within(p1, p2, 0, px, py) {
                    let j = choose|j: nat| j <= 0 && #[trigger] line_pixel(p1, p2, j) == (px, py);
                    assert(j == 0);
                }
                if px == p1.0 && py == p1.1 {
                    assert(line_pixel(p1, p2, 0) == (px, py));
                }
            }
        }
        while !(cx == p2.0 as i128 && cy == p2.1 as i128)
            invariant
                self.wf(),
                self.w == start.w,
                self.h == start.h,
                on_canvas(start.w, start.h, p1.0 as int, p1.1 as int),
                on_canvas(start.w, start.h, p2.0 as int, p2.1 as int),
                gdx == abs(p2.0 - p1.0),
                gdy == abs(p2.1 - p1.1),
                dx == gdx,
                dy == gdy,
                sx == sign(p2.0 - p1.0) || gdx == 0,
                sy == sign(p2.1 - p1.1) || gdy == 0,
                sx == 1 || sx == -1,
                sy == 1 || sy == -1,
                line_state(gdx, gdy, k) == (mx, my, err as int),
                err == gdx * (1 + my) - gdy * (1 + mx),
                gdx < 0x1_0000_0000,
                gdy < 0x1_0000_0000,
                0 <= mx <= gdx,
                0 <= my <= gdy,
                cx == p1.0 + sign(p2.0 - p1.0) * mx,
                cy == p1.1 + sign(p2.1 - p1.1) * my,
                forall|j: nat| j < k ==> !#[trigger] line_done(p1, p2, j),
                forall|px: int, py: int|
                    on_canvas(start.w, start.h, px, py) ==> if drawn_within(p1, p2, k, px, py) {
                        brush_gives(brush, px, py, #[trigger] self.pixel(px, py))
                    } else {
                        self.pixel(px, py) == start.pixel(px, py)
                    },
            decreases (gdx - mx) + (gdy - my),
        {
            proof {
                lemma_sign_abs(p2.0 - p1.0 as int);
                lemma_sign_abs(p2.1 - p1.1 as int);
            }
            assert(mx != gdx || my != gdy);
            assert(!line_done(p1, p2, k));
            assert(-0x4_0000_0000_0000_0000 <= err <= 0x4_0000_0000_0000_0000) by (nonlinear_arith)
                requires
                    err == gdx * (1 + my) - gdy * (1 + mx),
                    0 <= mx <= gdx < 0x1_0000_0000,
                    0 <= my <= gdy < 0x1_0000_0000,
            ;
            let e2: i128 = 2 * err;
            proof {
                lemma_between(p1.0 as int, p2.0 - p1.0, mx);
                lemma_between(p1.1 as int, p2.1 - p1.1, my);
            }
            let ghost old_mx = mx;
            let ghost old_my = my;
            let ghost old_err = err as int;
            if e2 > -dy {
                proof {
                    lemma_line_progress(gdx, gdy, old_mx, old_my, old_err);
                    assert(sx == sign(p2.0 - p1.0));
                    assert(sign(p2.0 - p1.0) * (mx + 1) == sign(p2.0 - p1.0) * mx + sign(p2.0 - p1.0))
                        by (nonlinear_arith);
                }
                err = err - dy;
                cx = cx + sx;
                proof {
                    mx = mx + 1;
                }
            }
            if e2 < dx {
                proof {
                    lemma_line_progress(gdx, gdy, old_mx, old_my, old_err);
                    assert(sy == sign(p2.1 - p1.1));
                    assert(sign(p2.1 - p1.1) * (my + 1) == sign(p2.1 - p1.1) * my + sign(p2.1 - p1.1))
                        by (nonlinear_arith);
                }
                err = err + dx;
                cy = cy + sy;
                proof {
                    my = my + 1;
                }
            }
            proof {
                lemma_line_progress(gdx, gdy, old_mx, old_my, old_err);
                assert(err == gdx * (1 + my) - gdy * (1 + mx)) by (nonlinear_arith)
                    requires
                        old_err == gdx * (1 + old_my) - gdy * (1 + old_mx),
                        mx == old_mx || mx == old_mx + 1,
                        my == old_my || my == old_my + 1,
                        mx == old_mx ==> err - old_err == (if my == old_my { 0 } else { gdx }),
                        mx == old_mx + 1 ==> err - old_err == (if my == old_my {
                            -gdy
                        } else {
                            gdx - gdy
                        }),
                ;
                k = k + 1;
            }
            let ghost before = *self;
            proof {
                lemma_between(p1.0 as int, p2.0 - p1.0, mx);
                lemma_between(p1.1 as int, p2.1 - p1.1, my);
            }
            self.paint(cx as u32, cy as u32, brush);
            proof {
                let here = (cx as int, cy as int);
                assert(line_pixel(p1, p2, k) == here);
                assert forall|px: int, py: int| on_canvas(start.w, start.h, px, py) implies if drawn_within(
                    p1,
                    p2,
                    k,
                    px,
                    py,
                ) {
                    brush_gives(brush, px, py, #[trigger] self.pixel(px, py))
                } else {
                    self.pixel(px, py) == start.pixel(px, py)
                } by {
                    if (px, py) == here {
                        assert(drawn_within(p1, p2, k, px, py));
                    } else {
                        if drawn_within(p1, p2, k, px, py) {
                            let j = choose|j: nat| j <= k && #[trigger] line_pixel(p1, p2, j) == (px, py);
                            assert(j != k);
                            assert(drawn_within(p1, p2, (k - 1) as nat, px, py));
                        }
                        if drawn_within(p1, p2, (k - 1) as nat, px, py) {
                            let j = choose|j: nat| j <= k - 1 && #[trigger] line_pixel(p1, p2, j) == (px, py);
                            assert(drawn_within(p1, p2, k, px, py));
                        }
                    }
                }
            }
        }
        proof {
            lemma_sign_abs(p2.0 - p1.0 as int);
            lemma_sign_abs(p2.1 - p1.1 as int);
            assert(line_done(p1, p2, k));
            assert forall|px: int, py: int| on_canvas(start.w, start.h, px, py) implies on_line(
                p1,
                p2,
                px,
                py,
            ) == drawn_within(p1, p2, k, px, py) by {
                if on_line(p1, p2, px, py) {
                    let k1 = choose|k1: nat|
                        (forall|j: nat| j < k1 ==> !#[trigger] line_done(p1, p2, j)) && #[trigger] line_pixel(
                            p1,
                            p2,
                            k1,
                        ) == (px, py);
                    if k1 > k {
                        assert(!line_done(p1, p2, k));
                    }
                    assert(drawn_within(p1, p2, k, px, py));
                }
                if drawn_within(p1, p2, k, px, py) {
                    let j = choose|j: nat| j <= k && #[trigger] line_pixel(p1, p2, j) == (px, py);
                    assert(forall|i: nat| i < j ==> !#[trigger] line_done(p1, p2, i));
                    assert(on_line(p1, p2, px, py));
                }
            }
        }
    }

    /// Paints each column `x` in the colour `rainbow(x)` gives.
    pub fn set_rainbow(&mut self)
        requires
            old(self).wf(),
        ensures
            final(self).wf(),
            final(self).w == old(self).w,
            final(self).h == old(self).h,
            forall|px: int, py: int|
                on_canvas(old(self).w, old(self).h, px, py) ==> #[trigger] final(self).pixel(px, py)
                    == rainbow(px as nat).0,
    {
        let ghost start = *self;
        let mut colour: u32 = 0xFF0000FF;
        let mut dc: Dcol = Dcol::Redplusgreen;
        let mut x: u32 = 0;
        while x < self.w
            invariant
                self.wf(),
                self.w == start.w,
                self.h == start.h,
                x <= self.w,
                (colour, dc) == rainbow(x as nat),
                forall|px: int, py: int|
                    on_canvas(start.w, start.h, px, py) ==> if px < x {
                        #[trigger] self.pixel(px, py) == rainbow(px as nat).0
                    } else {
                        self.pixel(px, py) == start.pixel(px, py)
                    },
            decreases self.w - x,
        {
            let h = self.h;
            self.fill_region(x, x + 1, 0, h, Brush::Solid(colour));
            match dc {
                Dcol::Redplusgreen => {
                    colour = colour.saturating_add(0x010000);
                    if (colour >> 16) & 0xFF == 0xFF {
                        dc = Dcol::Minusredgreen;
                    }
                },
                Dcol::Minusredgreen => {
                    colour = colour.saturating_sub(0x01000000);
                    if (colour >> 24) & 0xFF == 0 {
                        dc = Dcol::Greenplusblue;
                    }
                },
                Dcol::Greenplusblue => {
                    colour = colour.saturating_add(0x0100);
                    if (colour >> 8) & 0xFF == 0xFF {
                        dc = Dcol::Minusgreenblue;
                    }
                },
                Dcol::Minusgreenblue => {
                    colour = colour.saturating_sub(0x010000);
                    if (colour >> 16) & 0xFF == 0 {
                        dc = Dcol::Blueplusred;
                    }
                },
                Dcol::Blueplusred => {
                    colour = colour.saturating_add(0x01000000);
                    if (colour >> 24) & 0xFF == 0xFF {
                        dc = Dcol::Minusbluered;
                    }
                },
                Dcol::Minusbluered => {
                    colour = colour.saturating_sub(0x0100);
                    if (colour >> 8) & 0xFF == 0 {
                        dc = Dcol::Redplusgreen;
                    }
                },
            }
            x = x + 1;
        }
    }

    /// Paints the rectangle between corners `p1` and `p2`, clipped to the canvas.
    pub fn set_rect(&mut self, p1: Point, p2: Point, colour: u32, rand: bool)
        requires
            old(self).wf(),
            p1 != p2,
        ensures
            final(self).wf(),
            final(self).w == old(self).w,
            final(self).h == old(self).h,
            forall|px: int, py: int|
                on_canvas(old(self).w, old(self).h, px, py) ==> if in_rect(p1, p2, px, py) {
                    brush_gives(brush_for(colour, rand), px, py, #[trigger] final(self).pixel(px, py))
                } else {
                    final(self).pixel(px, py) == old(self).pixel(px, py)
                },
    {
        let (mut left, mut top) = p1;
        let (mut right, mut bottom) = p2;
        if left > right {
            let t = left;
            left = right;
            right = t;
        }
        if top > bottom {
            let t = top;
            top = bottom;
            bottom = t;
        }
        if top == bottom {
            bottom = right;
        }
        if left == right {
            right = bottom;
        }
        let x0 = clamp(left, self.w);
        let x1 = clamp(right, self.w);
        let y0 = clamp(top, self.h);
        let y1 = clamp(bottom, self.h);
        if x0 < x1 && y0 < y1 {
            self.fill_region(x0, x1, y0, y1, if rand {
                Brush::Random
            } else {
                Brush::Solid(colour)
            });
        }
    }
}

/// The sign test of pixel `(x, y)` against the line from `p` to `q`.
pub open spec fn side(p: Point, q: Point, x: int, y: int) -> bool {
    (x - p.0) * (q.1 - p.1) - (y - p.1) * (q.0 - p.0) > 0
}

pub open spec fn min3(a: int, b: int, c: int) -> int {
    if a <= b && a <= c {
        a
    } else if b <= c {
        b
    } else {
        c
    }
}

pub open spec fn max3(a: int, b: int, c: int) -> int {
    if a >= b && a >= c {
        a
    } else if b >= c {
        b
    } else {
        c
    }
}

/// Pixel `(x, y)` is one that `set_triangle` paints for corners `a`, `b`, `c`:
/// inside the bounding box (its right and bottom edges excluded), on the
/// positive side of exactly one of the lines from `a` to `b` and from `a` to
/// `c`, and on the same side of the line from `b` to `c` as of the first.
pub open spec fn in_triangle(a: Point, b: Point, c: Point, x: int, y: int) -> bool {
    &&& min3(a.0 as int, b.0 as int, c.0 as int) <= x < max3(a.0 as int, b.0 as int, c.0 as int)
    &&& min3(a.1 as int, b.1 as int, c.1 as int) <= y < max3(a.1 as int, b.1 as int, c.1 as int)
    &&& side(a, b, x, y) != side(a, c, x, y)
    &&& side(b, c, x, y) == side(a, b, x, y)
}

/// Coordinates small enough that the side tests cannot overflow.
pub open spec fn small_point(p: Point) -> bool {
    -0x8000_0000 <= p.0 <= 0x8000_0000 && -0x8000_0000 <= p.1 <= 0x8000_0000
}

fn side_test(p: Point, q: Point, x: u32, y: u32) -> (r: bool)
    requires
        small_point(p),
        small_point(q),
    ensures
        r == side(p, q, x as int, y as int),
{
    let dx = x as i128 - p.0 as i128;
    let dy = y as i128 - p.1 as i128;
    let ex = q.0 as i128 - p.0 as i128;
    let ey = q.1 as i128 - p.1 as i128;
    assert(-0x4_0000_0000_0000_0000 <= dx * ey <= 0x4_0000_0000_0000_0000
        && -0x4_0000_0000_0000_0000 <= dy * ex <= 0x4_0000_0000_0000_0000) by (nonlinear_arith)
        requires
            -0x2_0000_0000 <= dx <= 0x2_0000_0000,
            -0x2_0000_0000 <= dy <= 0x2_0000_0000,
            -0x2_0000_0000 <= ex <= 0x2_0000_0000,
            -0x2_0000_0000 <= ey <= 0x2_0000_0000,
    ;
    dx * ey - dy * ex > 0
}

fn min3_exec(a: isize, b: isize, c: isize) -> (r: isize)
    ensures
        r == min3(a as int, b as int, c as int),
{
    if a <= b && a <= c {
        a
    } else if b <= c {
        b
    } else {
        c
    }
}

fn max3_exec(a: isize, b: isize, c: isize) -> (r: isize)
    ensures
        r == max3(a as int, b as int, c as int),
{
    if a >= b && a >= c {
        a
    } else if b >= c {
        b
    } else {
        c
    }
}

/// One step of Bresenham's algorithm on the steps taken so far along each axis,
/// `(mx, my)`, and the error term, for a line spanning `dx` columns and `dy` rows.
pub open spec fn line_step(dx: int, dy: int, s: (int, int, int)) -> (int, int, int) {
    let (mx, my, err) = s;
    let e2 = 2 * err;
    let (mx1, err1) = if e2 > -dy {
        (mx + 1, err - dy)
    } else {
        (mx, err)
    };
    if e2 < dx {
        (mx1, my + 1, err1 + dx)
    } else {
        (mx1, my, err1)
    }
}

/// The state after `k` steps.
pub open spec fn line_state(dx: int, dy: int, k: nat) -> (int, int, int)
    decreases k,
{
    if k == 0 {
        (0, 0, dx - dy)
    } else {
        line_step(dx, dy, line_state(dx, dy, (k - 1) as nat))
    }
}

pub open spec fn sign(v: int) -> int {
    if v < 0 {
        -1
    } else {
        1
    }
}

/// The pixel that the line from `p1` to `p2` is at after `k` steps.
pub open spec fn line_pixel(p1: Point, p2: Point, k: nat) -> (int, int) {
    let s = line_state(abs(p2.0 - p1.0), abs(p2.1 - p1.1), k);
    (p1.0 + sign(p2.0 - p1.0) * s.0, p1.1 + sign(p2.1 - p1.1) * s.1)
}

/// The line from `p1` to `p2` has reached `p2` after `k` steps.
pub open spec fn line_done(p1: Point, p2: Point, k: nat) -> bool {
    let s = line_state(abs(p2.0 - p1.0), abs(p2.1 - p1.1), k);
    s.0 == abs(p2.0 - p1.0) && s.1 == abs(p2.1 - p1.1)
}

/// Pixel `(x, y)` is one that the line from `p1` to `p2` passes through
/// within its first `k` steps.
pub open spec fn drawn_within(p1: Point, p2: Point, k: nat, x: int, y: int) -> bool {
    exists|j: nat| j <= k && #[trigger] line_pixel(p1, p2, j) == (x, y)
}

/// Pixel `(x, y)` lies on the line from `p1` to `p2` that Bresenham's algorithm draws.
pub open spec fn on_line(p1: Point, p2: Point, x: int, y: int) -> bool {
    exists|k: nat|
        (forall|j: nat| j < k ==> !#[trigger] line_done(p1, p2, j)) && #[trigger] line_pixel(
            p1,
            p2,
            k,
        ) == (x, y)
}

proof fn lemma_sign_abs(d: int)
    ensures
        sign(d) * abs(d) == d,
        sign(d) == 1 || sign(d) == -1,
{
    if d < 0 {
        assert(sign(d) * abs(d) == -1 * (-d));
    } else {
        assert(sign(d) * abs(d) == 1 * d);
    }
}

proof fn lemma_between(p: int, d: int, m: int)
    requires
        0 <= m <= abs(d),
    ensures
        d >= 0 ==> p <= p + sign(d) * m <= p + d,
        d < 0 ==> p + d <= p + sign(d) * m <= p,
{
    if d < 0 {
        assert(sign(d) * m == -m);
    } else {
        assert(sign(d) * m == m);
    }
}

/// A step from a state short of the end moves along at least one axis and
/// past neither end.
proof fn lemma_line_progress(dx: int, dy: int, mx: int, my: int, err: int)
    requires
        0 <= mx <= dx,
        0 <= my <= dy,
        err == dx * (1 + my) - dy * (1 + mx),
        mx != dx || my != dy,
    ensures
        2 * err > -dy || 2 * err < dx,
        mx == dx ==> !(2 * err > -dy),
        my == dy ==> !(2 * err < dx),
{
    if mx == dx {
        assert(2 * err <= -2 * dy) by (nonlinear_arith)
            requires
                err == dx * (1 + my) - dy * (1 + mx),
                mx == dx,
                0 <= my <= dy - 1,
                dx >= 0,
        ;
    }
    if my == dy {
        assert(2 * err >= 2 * dx) by (nonlinear_arith)
            requires
                err == dx * (1 + my) - dy * (1 + mx),
                my == dy,
                0 <= mx <= dx - 1,
                dy >= 0,
        ;
    }
}

/// Which channel the rainbow raises or lowers next.
#[derive(Clone, Copy)]
pub enum Dcol {
    Redplusgreen,
    Minusredgreen,
    Greenplusblue,
    Minusgreenblue,
    Blueplusred,
    Minusbluered,
}

/// The colour and direction of the next rainbow column: one channel moves by
/// one step until it reaches its end, and then the next phase starts.
pub open spec fn rainbow_step(colour: u32, dc: Dcol) -> (u32, Dcol) {
    match dc {
        Dcol::Redplusgreen => {
            let c = colour.saturating_add(0x010000);
            (c, if (c >> 16) & 0xFF == 0xFF { Dcol::Minusredgreen } else { dc })
        },
        Dcol::Minusredgreen => {
            let c = colour.saturating_sub(0x01000000);
            (c, if (c >> 24) & 0xFF == 0 { Dcol::Greenplusblue } else { dc })
        },
        Dcol::Greenplusblue => {
            let c = colour.saturating_add(0x0100);
            (c, if (c >> 8) & 0xFF == 0xFF { Dcol::Minusgreenblue } else { dc })
        },
        Dcol::Minusgreenblue => {
            let c = colour.saturating_sub(0x010000);
            (c, if (c >> 16) & 0xFF == 0 { Dcol::Blueplusred } else { dc })
        },
        Dcol::Blueplusred => {
            let c = colour.saturating_add(0x01000000);
            (c, if (c >> 24) & 0xFF == 0xFF { Dcol::Minusbluered } else { dc })
        },
        Dcol::Minusbluered => {
            let c = colour.saturating_sub(0x0100);
            (c, if (c >> 8) & 0xFF == 0 { Dcol::Redplusgreen } else { dc })
        },
    }
}

/// The colour and direction of rainbow column `x`, starting from opaque red.
pub open spec fn rainbow(x: nat) -> (u32, Dcol)
    decreases x,
{
    if x == 0 {
        (0xFF0000FFu32, Dcol::Redplusgreen)
    } else {
        let (c, dc) = rainbow((x - 1) as nat);
        rainbow_step(c, dc)
    }
}

/// The Manhattan distance between `p` and pixel `(x, y)`.
pub open spec fn manhattan(p: Point, x: int, y: int) -> int {
    abs(p.0 - x) + abs(p.1 - y)
}

/// The distance to and the colour of the nearest site of `points` to pixel
/// `(x, y)` by Manhattan distance, the last one of those at the same distance;
/// starting from the largest `isize` and `0xFF`.
pub open spec fn nearest(points: Seq<(Point, u32)>, x: int, y: int) -> (int, u32)
    decreases points.len(),
{
    if points.len() == 0 {
        (isize::MAX as int, 0xFFu32)
    } else {
        let (m, c) = nearest(points.drop_last(), x, y);
        let d = manhattan(points.last().0, x, y);
        if d < m {
            (d, points.last().1)
        } else if d == m {
            (m, points.last().1)
        } else {
            (m, c)
        }
    }
}

/// The colour of the nearest site of `points` to pixel `(x, y)`.
fn nearest_colour(points: &[(Point, u32)], x: u32, y: u32) -> (colour: u32)
    ensures
        colour == nearest(points@, x as int, y as int).1,
{
    let mut min: i128 = isize::MAX as i128;
    let mut colour: u32 = 0xFF;
    let mut i: usize = 0;
    while i < points.len()
        invariant
            i <= points@.len(),
            (min as int, colour) == nearest(points@.subrange(0, i as int), x as int, y as int),
            min <= isize::MAX,
        decreases points@.len() - i,
    {
        let (p, c) = points[i];
        let d = abs_wide(p.0 as i128 - x as i128) + abs_wide(p.1 as i128 - y as i128);
        if d < min {
            min = d;
            colour = c;
        } else if d == min {
            colour = c;
        }
        proof {
            let next = points@.subrange(0, i + 1);
            assert(next.drop_last() =~= points@.subrange(0, i as int));
        }
        i = i + 1;
    }
    assert(points@.subrange(0, points@.len() as int) =~= points@);
    colour
}

/// Pixel `(x, y)` lies strictly inside the circle of centre `cp` and radius `r`.
pub open spec fn in_disc(cp: Point, r: int, x: int, y: int) -> bool {
    r > 0 && (x - cp.0) * (x - cp.0) + (y - cp.1) * (y - cp.1) < r * r
}

/// `after` is `before` with the disc of centre `cp` and radius `r` painted.
pub open spec fn disc_painted(
    before: Canvas,
    after: Canvas,
    cp: Point,
    r: int,
    b: Brush,
) -> bool {
    forall|px: int, py: int|
        on_canvas(before.w, before.h, px, py) ==> if in_disc(cp, r, px, py) {
            brush_gives(b, px, py, #[trigger] after.pixel(px, py))
        } else {
            after.pixel(px, py) == before.pixel(px, py)
        }
}

/// `v` clamped to `0..=bound`.
fn clamp_wide(v: i128, bound: u32) -> (r: u32)
    ensures
        r == (if v < 0 {
            0
        } else if v > bound {
            bound as int
        } else {
            v as int
        }),
{
    if v < 0 {
        0
    } else if v > bound as i128 {
        bound
    } else {
        v as u32
    }
}

proof fn lemma_far_from_centre(d: int, r: int)
    requires
        r > 0,
        d >= r || d <= -r,
    ensures
        d * d >= r * r,
{
    assert(d * d >= r * r) by (nonlinear_arith)
        requires
            r > 0,
            d >= r || d <= -r,
    ;
}

/// The columns `x0..x1` and rows `y0..y1` that `set_rect` paints for corners
/// `p1` and `p2`: their spans sorted; a rectangle of no height is given the
/// larger x as its bottom, and then one of no width the bottom as its right edge.
pub open spec fn rect_span(p1: Point, p2: Point) -> (int, int, int, int) {
    let (left, right) = if p1.0 > p2.0 {
        (p2.0 as int, p1.0 as int)
    } else {
        (p1.0 as int, p2.0 as int)
    };
    let (top, low) = if p1.1 > p2.1 {
        (p2.1 as int, p1.1 as int)
    } else {
        (p1.1 as int, p2.1 as int)
    };
    let bottom = if top == low {
        right
    } else {
        low
    };
    let right_edge = if left == right {
        bottom
    } else {
        right
    };
    (left, right_edge, top, bottom)
}

/// Pixel `(x, y)` lies in the rectangle that `set_rect` paints for `p1` and `p2`.
pub open spec fn in_rect(p1: Point, p2: Point, x: int, y: int) -> bool {
    let (x0, x1, y0, y1) = rect_span(p1, p2);
    x0 <= x < x1 && y0 <= y < y1
}

/// `v` clamped to `0..=bound`.
fn clamp(v: isize, bound: u32) -> (r: u32)
    ensures
        r == (if v < 0 {
            0
        } else if v > bound {
            bound as int
        } else {
            v as int
        }),
{
    if v < 0 {
        0
    } else if v as u64 > bound as u64 {
        bound
    } else {
        v as u32
    }
}

} // verus!
