//! Pictures composed from the canvas's shapes.
use vstd::prelude::*;
use crate::canvas::{
    at, brush_for, disc_painted, in_disc, on_canvas, on_line, Canvas, Point, DRCYAN, DRGREEN,
    DRORANGE, DRPINK, DRPURPLE, DRRED, DRYELLOW,
};

verus! {

/// The background colour of the pictures.
pub const DRBG: u32 = 0x282A36FF;

/// Colour `i` of the seven-colour palette.
pub open spec fn palette(i: int) -> u32 {
    if i == 0 {
        DRRED
    } else if i == 1 {
        DRORANGE
    } else if i == 2 {
        DRYELLOW
    } else if i == 3 {
        DRGREEN
    } else if i == 4 {
        DRCYAN
    } else if i == 5 {
        DRPURPLE
    } else {
        DRPINK
    }
}

/// `v` is a colour of the palette.
pub open spec fn in_palette(v: u32) -> bool {
    exists|i: int| 0 <= i < 7 && #[trigger] palette(i) == v
}

/// Relies on rand's `Rng::gen_range` over a half-open range of `usize`, which
/// returns a value of that range and panics when it is empty.
#[verifier::external_body]
fn random_index(n: usize) -> (i: usize)
    requires
        n > 0,
    ensures
        i < n,
{
    rand::Rng::gen_range(&mut rand::thread_rng(), 0..n)
}

/// A colour of the palette, picked at random.
pub fn random_palette() -> (c: u32)
    ensures
        in_palette(c),
{
    let i = random_index(7);
    let c = if i == 0 {
        DRRED
    } else if i == 1 {
        DRORANGE
    } else if i == 2 {
        DRYELLOW
    } else if i == 3 {
        DRGREEN
    } else if i == 4 {
        DRCYAN
    } else if i == 5 {
        DRPURPLE
    } else {
        DRPINK
    };
    assert(palette(i as int) == c);
    c
}

/// Pixel `(x, y)` lies on the one-pixel frame of a `w` by `h` canvas.
pub open spec fn on_border(w: u32, h: u32, x: int, y: int) -> bool {
    x == 0 || y == 0 || x == w - 1 || y == h - 1
}

/// A canvas of background colour framed by four edges of random palette colours.
pub fn borders(w: u32, h: u32) -> (c: Canvas)
    requires
        1 <= w <= isize::MAX,
        1 <= h <= isize::MAX,
        w * h <= usize::MAX,
    ensures
        c.wf(),
        c.w == w,
        c.h == h,
        forall|px: int, py: int|
            on_canvas(w, h, px, py) ==> if on_border(w, h, px, py) {
                in_palette(#[trigger] c.pixel(px, py))
            } else {
                c.pixel(px, py) == DRBG
            },
{
    let mut c = Canvas::new(DRBG, w, h);
    let ghost c0 = c;
    let k1 = random_palette();
    c.set_rect((0, 0), (w as isize, 1), k1, false);
    let ghost c1 = c;
    let k2 = random_palette();
    c.set_rect((0, 0), (1, h as isize), k2, false);
    let ghost c2 = c;
    let k3 = random_palette();
    c.set_rect((w as isize, h as isize), ((w - 1) as isize, 0), k3, false);
    let ghost c3 = c;
    let k4 = random_palette();
    c.set_rect((w as isize, h as isize), (0, (h - 1) as isize), k4, false);
    proof {
        assert forall|px: int, py: int| on_canvas(w, h, px, py) implies if on_border(
            w,
            h,
            px,
            py,
        ) {
            in_palette(#[trigger] c.pixel(px, py))
        } else {
            c.pixel(px, py) == DRBG
        } by {
            crate::canvas::lemma_at(w, h, px, py, px, py);
            assert(c0.pixel(px, py) == DRBG);
            let _ = c1.pixel(px, py);
            let _ = c2.pixel(px, py);
            let _ = c3.pixel(px, py);
        }
    }
    c
}

/// Every pixel is background or, when `random` is set, a random colour of full
/// alpha range, else a palette colour.
pub open spec fn background_or_painted(c: Canvas, random: bool) -> bool {
    forall|px: int, py: int|
        on_canvas(c.w, c.h, px, py) ==> #[trigger] c.pixel(px, py) == DRBG || (if random {
            c.pixel(px, py) >= 0xFF
        } else {
            in_palette(c.pixel(px, py))
        })
}

/// A grid of `columns` by `rows` cells, centred on the canvas, each holding a
/// circle of a random palette colour (or random colours when `randc` is set) as
/// wide as the narrower side of a cell (or of a random radius when `randr` is
/// set), for as long as the circles fit on the canvas.
pub fn circles(w: u32, h: u32, columns: isize, rows: isize, randc: bool, randr: bool) -> (c: Canvas)
    requires
        w <= 0x1FFF_FFFF,
        h <= 0x1FFF_FFFF,
        w * h <= usize::MAX,
        1 <= columns <= w,
        1 <= rows <= h,
        randr ==> w as int / columns as int >= 2 && h as int / rows as int >= 2,
    ensures
        c.wf(),
        c.w == w,
        c.h == h,
        background_or_painted(c, randc),
{
    let mut c = Canvas::new(DRBG, w, h);
    let wi = w as isize;
    let hi = h as isize;
    let cellw: isize = wi / columns;
    let cellh: isize = hi / rows;
    let xpad: isize = (wi % columns) / 2;
    let ypad: isize = (hi % rows) / 2;
    let r: isize = if cellw < cellh {
        cellw
    } else {
        cellh
    } / 2;
    assert(cellw >= 1 && cellh >= 1) by (nonlinear_arith)
        requires
            cellw == wi / columns,
            cellh == hi / rows,
            1 <= columns <= wi,
            1 <= rows <= hi,
    ;
    assert(cellw <= wi && cellh <= hi) by (nonlinear_arith)
        requires
            cellw == wi / columns,
            cellh == hi / rows,
            1 <= columns,
            1 <= rows,
            0 <= wi,
            0 <= hi,
    ;
    proof {
        assert forall|px: int, py: int| on_canvas(c.w, c.h, px, py) implies #[trigger] c.pixel(px, py)
            == DRBG by {
            crate::canvas::lemma_at(w, h, px, py, px, py);
        }
    }
    let mut y: isize = ypad;
    while y <= hi
        invariant
            c.wf(),
            c.w == w,
            c.h == h,
            wi == w <= 0x1FFF_FFFF,
            hi == h <= 0x1FFF_FFFF,
            1 <= cellw <= wi,
            1 <= cellh <= hi,
            0 <= xpad <= wi,
            0 <= y <= hi + cellh,
            0 <= r <= cellw,
            r <= cellh,
            randr ==> r >= 1,
            background_or_painted(c, randc),
        decreases hi + cellh - y,
    {
        let mut x: isize = xpad;
        while x + cellw / 2 + r <= wi && y + cellh / 2 + r <= hi
            invariant
                c.wf(),
                c.w == w,
                c.h == h,
                wi == w <= 0x1FFF_FFFF,
                hi == h <= 0x1FFF_FFFF,
                1 <= cellw <= wi,
                1 <= cellh <= hi,
                0 <= x <= wi + cellw,
                0 <= y <= hi,
                0 <= r <= cellw,
                r <= cellh,
                randr ==> r >= 1,
                background_or_painted(c, randc),
            decreases wi + cellw - x,
        {
            let cp: (isize, isize) = (x + cellw / 2, y + cellh / 2);
            let k = random_palette();
            let ghost before = c;
            c.set_circle(cp, r, k, randc, randr);
            proof {
                let b = brush_for(k, randc);
                if randr {
                    let s = choose|s: int| 1 <= s <= r && disc_painted(before, c, cp, s, b);
                    assert(disc_painted(before, c, cp, s, b));
                } else {
                    assert(disc_painted(before, c, cp, r as int, b));
                }
                assert forall|px: int, py: int| on_canvas(c.w, c.h, px, py) implies #[trigger] c.pixel(
                    px,
                    py,
                ) == DRBG || (if randc {
                    c.pixel(px, py) >= 0xFF
                } else {
                    in_palette(c.pixel(px, py))
                }) by {
                    let _ = before.pixel(px, py);
                }
            }
            x = x + cellw;
        }
        y = y + cellh;
    }
    c
}

/// `f` is a `w` by `h` frame of background with a pink disc of centre `cp`
/// and radius `r`.
pub open spec fn shows_disc(f: Seq<u32>, w: u32, h: u32, cp: Point, r: int) -> bool {
    &&& f.len() == w * h
    &&& forall|px: int, py: int|
        on_canvas(w, h, px, py) ==> #[trigger] f[at(w, px, py)] == if in_disc(cp, r, px, py) {
            DRPINK
        } else {
            DRBG
        }
}

/// How far the circle moves between frames.
pub open spec fn bounce_step(w: u32, r: isize, frames: u32) -> int {
    (2 * (w - 2 * r)) / frames as int
}

/// How many steps from the left the circle is in frame `k` of an animation
/// that goes `n` steps right and comes back.
pub open spec fn bounce_place(k: int, n: int) -> int {
    if k <= n {
        k
    } else {
        2 * n - k
    }
}

fn copy_pixels(v: &Vec<u32>) -> (r: Vec<u32>)
    ensures
        r@ == v@,
{
    let mut r: Vec<u32> = Vec::new();
    let mut i: usize = 0;
    while i < v.len()
        invariant
            i <= v@.len(),
            r@ == v@.subrange(0, i as int),
        decreases v@.len() - i,
    {
        r.push(v[i]);
        assert(v@.subrange(0, i + 1) =~= v@.subrange(0, i as int).push(v@[i as int]));
        i = i + 1;
    }
    assert(v@.subrange(0, v@.len() as int) =~= v@);
    r
}

/// The frame with the circle `x` pixels from the left edge.
fn disc_frame(w: u32, h: u32, x: isize, r: isize) -> (f: Vec<u32>)
    requires
        w * h <= usize::MAX,
        h <= isize::MAX,
    ensures
        shows_disc(f@, w, h, (x, (h / 2) as isize), r as int),
{
    let mut c = Canvas::new(DRBG, w, h);
    let ghost c0 = c;
    c.set_circle((x, h as isize / 2), r, DRPINK, false, false);
    proof {
        assert forall|px: int, py: int| on_canvas(w, h, px, py) implies #[trigger] c.data@[at(
            w,
            px,
            py,
        )] == if in_disc((x, (h / 2) as isize), r as int, px, py) {
            DRPINK
        } else {
            DRBG
        } by {
            crate::canvas::lemma_at(w, h, px, py, px, py);
            assert(c0.pixel(px, py) == DRBG);
            assert(c.pixel(px, py) == c.data@[at(w, px, py)]);
        }
    }
    c.data
}

/// The frames of a pink circle of radius `r` that moves from the left edge in
/// `frames / 2` equal steps and comes back, leaving out the frames at both ends
/// on the way back.
pub fn bouncy_circle_anim(w: u32, h: u32, r: isize, frames: u32) -> (data: Vec<Vec<u32>>)
    requires
        w <= 0x3FFF_FFFF,
        h <= 0x3FFF_FFFF,
        w * h <= usize::MAX,
        frames >= 1,
        0 <= r,
        2 * r <= w,
    ensures
        data@.len() == (if frames / 2 == 0 {
            1
        } else {
            2 * (frames / 2)
        }),
        forall|k: int|
            0 <= k < data@.len() ==> shows_disc(
                #[trigger] data@[k]@,
                w,
                h,
                ((r + bounce_step(w, r, frames) * bounce_place(k, (frames / 2) as int)) as isize, (h
                    / 2) as isize),
                r as int,
            ),
{
    let n: u32 = frames / 2;
    let s: u32 = (2 * (w - 2 * (r as u32))) / frames;
    let ghost step = bounce_step(w, r, frames);
    assert(s == step);
    assert(n * s <= w - 2 * r) by (nonlinear_arith)
        requires
            n == frames / 2,
            s == (2 * (w - 2 * r)) / frames as int,
            frames >= 1,
            2 * r <= w,
    ;
    let mut data: Vec<Vec<u32>> = Vec::new();
    let mut x: isize = r;
    data.push(disc_frame(w, h, x, r));
    let mut i: u32 = 0;
    while i < n
        invariant
            i <= n,
            n == frames / 2,
            s == step,
            n * s <= w - 2 * r,
            w <= 0x3FFF_FFFF,
            h <= 0x3FFF_FFFF,
            w * h <= usize::MAX,
            0 <= r,
            x == r + s * i,
            data@.len() == i + 1,
            forall|k: int|
                0 <= k < data@.len() ==> shows_disc(
                    #[trigger] data@[k]@,
                    w,
                    h,
                    ((r + step * k) as isize, (h / 2) as isize),
                    r as int,
                ),
        decreases n - i,
    {
        assert(s * (i + 1) <= n * s && s * (i + 1) == s * i + s) by (nonlinear_arith)
            requires
                i + 1 <= n,
                s >= 0,
        ;
        x = x + s as isize;
        data.push(disc_frame(w, h, x, r));
        i = i + 1;
    }
    let mut k: u32 = n;
    while k > 1
        invariant
            k <= n,
            n >= 1 ==> k >= 1,
            n == frames / 2,
            data@.len() == n + 1 + (n - k),
            forall|j: int|
                0 <= j < data@.len() ==> shows_disc(
                    #[trigger] data@[j]@,
                    w,
                    h,
                    ((r + step * bounce_place(j, n as int)) as isize, (h / 2) as isize),
                    r as int,
                ),
        decreases k,
    {
        let f = copy_pixels(&data[(k - 1) as usize]);
        data.push(f);
        k = k - 1;
    }
    data
}

/// The multiples of `step` up to `n - 1`, and then `n - 1` when it is not one.
pub open spec fn axis(n: int, step: int) -> Seq<isize> {
    Seq::new((((n - 1) / step) + 1) as nat, |k: int| (k * step) as isize) + if (n - 1) % step
        != 0 {
        seq![(n - 1) as isize]
    } else {
        Seq::<isize>::empty()
    }
}

/// The points `(x, y)` for each `y` of `ys` and, within that row, each `x` of `xs`.
pub open spec fn grid(xs: Seq<isize>, ys: Seq<isize>) -> Seq<Point>
    decreases ys.len(),
{
    if ys.len() == 0 {
        Seq::empty()
    } else {
        grid(xs, ys.drop_last()) + xs.map_values(|x: isize| (x, ys.last()))
    }
}

/// The points of the mesh that `lines` draws: every `w / divideby` pixels
/// across and `h / divideby` down, with the last column and row added.
pub open spec fn mesh(w: u32, h: u32, divideby: isize) -> Seq<Point> {
    grid(axis(w as int, w as int / divideby as int), axis(h as int, h as int / divideby as int))
}

fn axis_values(n: u32, step: u32) -> (r: Vec<isize>)
    requires
        1 <= step <= n <= isize::MAX,
    ensures
        r@ == axis(n as int, step as int),
        forall|i: int| 0 <= i < r@.len() ==> 0 <= #[trigger] r@[i] < n,
{
    let mut r: Vec<isize> = Vec::new();
    let mut v: u64 = 0;
    let ghost count = ((n - 1) / step as int) + 1;
    let ghost multiples = Seq::new(count as nat, |k: int| (k * step) as isize);
    while v <= (n - 1) as u64
        invariant
            1 <= step <= n <= isize::MAX,
            v as int % step as int == 0,
            r@.len() == v as int / step as int,
            v <= n - 1 + step,
            count == ((n - 1) / step as int) + 1,
            multiples == Seq::new(count as nat, |k: int| (k * step) as isize),
            r@ == multiples.take(r@.len() as int),
            forall|i: int| 0 <= i < r@.len() ==> 0 <= #[trigger] r@[i] < n,
        decreases n - 1 + step - v,
    {
        let ghost vi = v as int;
        let ghost si = step as int;
        assert(vi / si < count && (vi / si) * si == vi && (vi + si) % si == 0 && (vi + si) / si
            == vi / si + 1) by (nonlinear_arith)
            requires
                vi % si == 0,
                0 <= vi <= n - 1,
                si >= 1,
                count == ((n - 1) / si) + 1,
        ;
        r.push(v as isize);
        assert(r@ =~= multiples.take(r@.len() as int));
        v = v + step as u64;
    }
    assert(r@.len() == count) by (nonlinear_arith)
        requires
            r@.len() == v as int / step as int,
            v as int % step as int == 0,
            n - 1 < v,
            v <= n - 1 + step,
            step >= 1,
            count == ((n - 1) / step as int) + 1,
    ;
    assert(r@ =~= multiples);
    if (n - 1) % step != 0 {
        r.push((n - 1) as isize);
    }
    assert(r@ =~= axis(n as int, step as int));
    r
}

/// The points of the mesh, row by row.
pub fn mesh_points(w: u32, h: u32, divideby: isize) -> (pts: Vec<Point>)
    requires
        1 <= divideby <= w <= isize::MAX,
        divideby <= h <= isize::MAX,
    ensures
        pts@ == mesh(w, h, divideby),
        forall|i: int|
            0 <= i < pts@.len() ==> on_canvas(w, h, #[trigger] pts@[i].0 as int, pts@[i].1 as int),
{
    assert(w as int / divideby as int >= 1 && h as int / divideby as int >= 1) by (nonlinear_arith)
        requires
            1 <= divideby <= w,
            divideby <= h,
    ;
    let xs = axis_values(w, (w as isize / divideby) as u32);
    let ys = axis_values(h, (h as isize / divideby) as u32);
    let mut pts: Vec<Point> = Vec::new();
    let mut j: usize = 0;
    while j < ys.len()
        invariant
            j <= ys@.len(),
            pts@ == grid(xs@, ys@.take(j as int)),
            forall|i: int| 0 <= i < xs@.len() ==> 0 <= #[trigger] xs@[i] < w,
            forall|i: int| 0 <= i < ys@.len() ==> 0 <= #[trigger] ys@[i] < h,
            forall|i: int|
                0 <= i < pts@.len() ==> on_canvas(w, h, #[trigger] pts@[i].0 as int, pts@[i].1 as int),
        decreases ys@.len() - j,
    {
        let ghost before = pts@;
        let y = ys[j];
        let mut i: usize = 0;
        while i < xs.len()
            invariant
                i <= xs@.len(),
                j < ys@.len(),
                y == ys@[j as int],
                pts@ == before + xs@.take(i as int).map_values(|x: isize| (x, y)),
                forall|k: int| 0 <= k < xs@.len() ==> 0 <= #[trigger] xs@[k] < w,
                forall|k: int| 0 <= k < ys@.len() ==> 0 <= #[trigger] ys@[k] < h,
                forall|k: int|
                    0 <= k < pts@.len() ==> on_canvas(w, h, #[trigger] pts@[k].0 as int, pts@[k].1 as int),
            decreases xs@.len() - i,
        {
            pts.push((xs[i], y));
            assert(xs@.take(i + 1).map_values(|x: isize| (x, y)) =~= xs@.take(i as int).map_values(
                |x: isize| (x, y),
            ).push((xs@[i as int], y)));
            i = i + 1;
        }
        assert(xs@.take(xs@.len() as int) =~= xs@);
        assert(ys@.take(j + 1).drop_last() =~= ys@.take(j as int));
        j = j + 1;
    }
    assert(ys@.take(ys@.len() as int) =~= ys@);
    pts
}

/// Pixel `(x, y)` lies on a line between two different points of `pts`.
pub open spec fn joined(pts: Seq<Point>, x: int, y: int) -> bool {
    exists|a: int, b: int|
        0 <= a < pts.len() && 0 <= b < pts.len() && pts[a] != pts[b] && #[trigger] on_line(
            pts[a],
            pts[b],
            x,
            y,
        )
}

/// Pixel `(x, y)` lies on a line between two different points of `pts` drawn
/// before the pair `(i, j)`, in row-major order of pairs.
pub open spec fn joined_before(pts: Seq<Point>, i: int, j: int, x: int, y: int) -> bool {
    exists|a: int, b: int|
        0 <= a < pts.len() && 0 <= b < pts.len() && (a < i || (a == i && b < j)) && pts[a]
            != pts[b] && #[trigger] on_line(pts[a], pts[b], x, y)
}

/// A mesh of points, every `w / divideby` pixels across and `h / divideby` down
/// plus the last column and row, with a line of `colour` between every two of
/// them, on background.
pub fn lines(w: u32, h: u32, divideby: isize, colour: u32) -> (c: Canvas)
    requires
        1 <= divideby <= w <= isize::MAX,
        divideby <= h <= isize::MAX,
        w * h <= usize::MAX,
    ensures
        c.wf(),
        c.w == w,
        c.h == h,
        forall|px: int, py: int|
            on_canvas(w, h, px, py) ==> #[trigger] c.pixel(px, py) == if joined(
                mesh(w, h, divideby),
                px,
                py,
            ) {
                colour
            } else {
                DRBG
            },
{
    let mut c = Canvas::new(DRBG, w, h);
    let pts = mesh_points(w, h, divideby);
    let n = pts.len();
    let mut i: usize = 0;
    proof {
        assert forall|px: int, py: int| on_canvas(w, h, px, py) implies #[trigger] c.pixel(px, py)
            == DRBG by {
            crate::canvas::lemma_at(w, h, px, py, px, py);
        }
    }
    while i < n
        invariant
            c.wf(),
            c.w == w,
            c.h == h,
            n == pts@.len(),
            i <= n,
            forall|k: int|
                0 <= k < pts@.len() ==> on_canvas(w, h, #[trigger] pts@[k].0 as int, pts@[k].1 as int),
            forall|px: int, py: int|
                on_canvas(w, h, px, py) ==> #[trigger] c.pixel(px, py) == if joined_before(
                    pts@,
                    i as int,
                    0,
                    px,
                    py,
                ) {
                    colour
                } else {
                    DRBG
                },
        decreases n - i,
    {
        let mut j: usize = 0;
        while j < n
            invariant
                c.wf(),
                c.w == w,
                c.h == h,
                n == pts@.len(),
                i < n,
                j <= n,
                forall|k: int|
                    0 <= k < pts@.len() ==> on_canvas(w, h, #[trigger] pts@[k].0 as int, pts@[k].1 as int),
                forall|px: int, py: int|
                    on_canvas(w, h, px, py) ==> #[trigger] c.pixel(px, py) == if joined_before(
                        pts@,
                        i as int,
                        j as int,
                        px,
                        py,
                    ) {
                        colour
                    } else {
                        DRBG
                    },
            decreases n - j,
        {
            let p1 = pts[i];
            let p2 = pts[j];
            let ghost before = c;
            if p1.0 != p2.0 || p1.1 != p2.1 {
                c.set_line(p1, p2, colour, false);
            }
            proof {
                assert forall|px: int, py: int| on_canvas(w, h, px, py) implies #[trigger] c.pixel(
                    px,
                    py,
                ) == if joined_before(pts@, i as int, j + 1, px, py) {
                    colour
                } else {
                    DRBG
                } by {
                    let _ = before.pixel(px, py);
                    if joined_before(pts@, i as int, j + 1, px, py) {
                        let (a, b) = choose|a: int, b: int|
                            0 <= a < pts@.len() && 0 <= b < pts@.len() && (a < i || (a == i && b < j
                                + 1)) && pts@[a] != pts@[b] && #[trigger] on_line(
                                pts@[a],
                                pts@[b],
                                px,
                                py,
                            );
                        if !(a == i && b == j) {
                            assert(joined_before(pts@, i as int, j as int, px, py));
                        }
                    }
                    if joined_before(pts@, i as int, j as int, px, py) {
                        let (a, b) = choose|a: int, b: int|
                            0 <= a < pts@.len() && 0 <= b < pts@.len() && (a < i || (a == i && b < j))
                                && pts@[a] != pts@[b] && #[trigger] on_line(pts@[a], pts@[b], px, py);
                        assert(joined_before(pts@, i as int, j + 1, px, py));
                    }
                    if pts@[i as int] != pts@[j as int] && on_line(pts@[i as int], pts@[j as int], px, py) {
                        assert(joined_before(pts@, i as int, j + 1, px, py));
                    }
                }
            }
            j = j + 1;
        }
        proof {
            assert forall|px: int, py: int| on_canvas(w, h, px, py) implies joined_before(
                pts@,
                i as int,
                n as int,
                px,
                py,
            ) == joined_before(pts@, i + 1, 0, px, py) by {
                if joined_before(pts@, i as int, n as int, px, py) {
                    let (a, b) = choose|a: int, b: int|
                        0 <= a < pts@.len() && 0 <= b < pts@.len() && (a < i || (a == i && b < n))
                            && pts@[a] != pts@[b] && #[trigger] on_line(pts@[a], pts@[b], px, py);
                    assert(joined_before(pts@, i + 1, 0, px, py));
                }
                if joined_before(pts@, i + 1, 0, px, py) {
                    let (a, b) = choose|a: int, b: int|
                        0 <= a < pts@.len() && 0 <= b < pts@.len() && (a < i + 1 || (a == i + 1 && b
                            < 0)) && pts@[a] != pts@[b] && #[trigger] on_line(pts@[a], pts@[b], px, py);
                    assert(joined_before(pts@, i as int, n as int, px, py));
                }
            }
        }
        i = i + 1;
    }
    proof {
        assert forall|px: int, py: int| on_canvas(w, h, px, py) implies joined_before(
            pts@,
            n as int,
            0,
            px,
            py,
        ) == joined(pts@, px, py) by {
            if joined(pts@, px, py) {
                let (a, b) = choose|a: int, b: int|
                    0 <= a < pts@.len() && 0 <= b < pts@.len() && pts@[a] != pts@[b] && #[trigger] on_line(
                        pts@[a],
                        pts@[b],
                        px,
                        py,
                    );
                assert(joined_before(pts@, n as int, 0, px, py));
            }
        }
    }
    c
}

} // verus!
