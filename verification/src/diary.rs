//! The diary's own decisions around the page: when a footprint is stamped
//! beside live ink and which pixels it paints, how thick the ink runs, where
//! the lines of Tom's reply go on the page, how the reply is written out a
//! few points per frame, and how long it lingers.

use vstd::prelude::*;
use vstd::arithmetic::div_mod::lemma_fundamental_div_mod_converse;

verus! {

// ---------------------------------------------------------------------------
// Solid ellipses.
// ---------------------------------------------------------------------------

/// Whether offset (`dx`, `dy`) lies in the ellipse of radii `rx`, `ry`.
pub open spec fn inside(dx: int, dy: int, rx: int, ry: int) -> bool {
    dx * dx * ry * ry + dy * dy * rx * rx <= rx * rx * ry * ry
}

/// The cells of the box around an ellipse's center, row by row from the
/// top, each row from the left.
pub open spec fn box_cells(rx: int, ry: int) -> Seq<(int, int)> {
    let w = 2 * rx + 1;
    Seq::new((w * (2 * ry + 1)) as nat, |k: int| (k % w - rx, k / w - ry))
}

/// The pixel of a box cell when it lies in the ellipse.
pub open spec fn ellipse_pixel(cx: i32, cy: i32, rx: i32, ry: i32) -> spec_fn((int, int)) -> Option<
    (i32, i32),
> {
    |c: (int, int)|
        if inside(c.0, c.1, rx as int, ry as int) {
            Some(((cx + c.0) as i32, (cy + c.1) as i32))
        } else {
            None
        }
}

/// The pixels a solid ellipse paints, in painting order: the cells of its
/// box that lie in it, row by row. None for a negative radius.
pub open spec fn ellipse_pixels(cx: i32, cy: i32, rx: i32, ry: i32) -> Seq<(i32, i32)> {
    if rx < 0 || ry < 0 {
        Seq::empty()
    } else {
        box_cells(rx as int, ry as int).filter_map(ellipse_pixel(cx, cy, rx, ry))
    }
}

/// Whether painting the ellipse stays within `i32` arithmetic: every product
/// the inside test forms, and every pixel coordinate, fits.
pub open spec fn ellipse_fits(cx: i32, cy: i32, rx: i32, ry: i32) -> bool {
    &&& ry > i32::MIN
    &&& ry >= 0 ==> rx > i32::MIN
    &&& rx >= 0 && ry >= 0 ==> {
        &&& rx * rx <= i32::MAX
        &&& ry * ry <= i32::MAX
        &&& rx * rx * ry <= i32::MAX
        &&& ry * ry * rx <= i32::MAX
        &&& 2 * (rx * rx * ry * ry) <= i32::MAX
        &&& i32::MIN <= cx - rx && cx + rx <= i32::MAX
        &&& i32::MIN <= cy - ry && cy + ry <= i32::MAX
    }
}

proof fn lemma_square_bound(d: int, r: int, s: int)
    requires
        0 <= r,
        0 <= s,
        -r <= d <= r,
    ensures
        0 <= d * d <= r * r,
        0 <= d * d * s <= r * r * s,
        0 <= d * d * s * s <= r * r * s * s,
{
    assert(0 <= d * d <= r * r) by (nonlinear_arith)
        requires
            -r <= d <= r,
            0 <= r,
    ;
    assert(0 <= d * d * s <= r * r * s) by (nonlinear_arith)
        requires
            0 <= d * d <= r * r,
            0 <= s,
    ;
    assert(0 <= d * d * s * s <= r * r * s * s) by (nonlinear_arith)
        requires
            0 <= d * d * s <= r * r * s,
            0 <= s,
    ;
}

/// Paints a solid ellipse centered at (`cx`, `cy`): appends its pixels to
/// `px` in painting order.
pub fn solid_ellipse(cx: i32, cy: i32, rx: i32, ry: i32, px: &mut Vec<(i32, i32)>)
    requires
        ellipse_fits(cx, cy, rx, ry),
    ensures
        final(px)@ == old(px)@ + ellipse_pixels(cx, cy, rx, ry),
{
    if rx < 0 || ry < 0 {
        assert(old(px)@ + Seq::<(i32, i32)>::empty() =~= old(px)@);
        return;
    }
    let ghost o = px@;
    let ghost rxi = rx as int;
    let ghost ryi = ry as int;
    let ghost w = 2 * rxi + 1;
    let ghost cells = box_cells(rxi, ryi);
    let ghost f = ellipse_pixel(cx, cy, rx, ry);
    let ghost mut k: int = 0;
    assert(cells.take(0) =~= Seq::<(int, int)>::empty());
    assert(o + cells.take(0).filter_map(f) =~= o);
    assert(0 <= w * (2 * ryi + 1)) by (nonlinear_arith)
        requires
            w >= 1,
            ryi >= 0,
    ;
    let mut dy: i64 = -(ry as i64);
    assert((dy + ryi) * w == 0) by (nonlinear_arith)
        requires
            dy + ryi == 0,
    ;
    while dy <= ry as i64
        invariant
            0 <= rx,
            0 <= ry,
            ellipse_fits(cx, cy, rx, ry),
            rxi == rx,
            ryi == ry,
            w == 2 * rxi + 1,
            cells == box_cells(rxi, ryi),
            f == ellipse_pixel(cx, cy, rx, ry),
            -ryi <= dy <= ryi + 1,
            k == (dy + ryi) * w,
            px@ == o + cells.take(k).filter_map(f),
        decreases ryi + 1 - dy,
    {
        let mut dx: i64 = -(rx as i64);
        while dx <= rx as i64
            invariant
                0 <= rx,
                0 <= ry,
                ellipse_fits(cx, cy, rx, ry),
                rxi == rx,
                ryi == ry,
                w == 2 * rxi + 1,
                cells == box_cells(rxi, ryi),
                f == ellipse_pixel(cx, cy, rx, ry),
                -ryi <= dy <= ryi,
                -rxi <= dx <= rxi + 1,
                k == (dy + ryi) * w + (dx + rxi),
                px@ == o + cells.take(k).filter_map(f),
            decreases rxi + 1 - dx,
        {
            proof {
                lemma_square_bound(dx as int, rxi, ryi);
                lemma_square_bound(dy as int, ryi, rxi);
                assert(dy * dy * rxi * rxi == dy * dy * rxi * rxi);
                assert(rxi * rxi * ryi <= i32::MAX);
                assert(ryi * ryi * rxi <= i32::MAX);
                assert(ryi * ryi * rxi * rxi == rxi * rxi * ryi * ryi) by (nonlinear_arith);
                assert(ryi * ryi * rxi == rxi * ryi * ryi) by (nonlinear_arith);
                assert(0 <= (dy + ryi) * w + (dx + rxi) < w * (2 * ryi + 1)) by (nonlinear_arith)
                    requires
                        0 <= dy + ryi <= 2 * ryi,
                        0 <= dx + rxi < w,
                ;
                lemma_fundamental_div_mod_converse(k, w, dy + ryi, dx + rxi);
                assert(cells[k] == (dx as int, dy as int));
                cells.lemma_filter_map_take_succ(f, k);
            }
            let dxi = dx as i32;
            let dyi = dy as i32;
            if dxi * dxi * ry * ry + dyi * dyi * rx * rx <= rx * rx * ry * ry {
                px.push((cx + dxi, cy + dyi));
            }
            assert(px@ == o + cells.take(k + 1).filter_map(f));
            proof {
                k = k + 1;
            }
            dx = dx + 1;
        }
        proof {
            assert(k == (dy + 1 + ryi) * w) by (nonlinear_arith)
                requires
                    k == (dy + ryi) * w + (rxi + 1 + rxi),
                    w == 2 * rxi + 1,
            ;
        }
        dy = dy + 1;
    }
    proof {
        assert(k == w * (2 * ryi + 1)) by (nonlinear_arith)
            requires
                k == (dy + ryi) * w,
                dy == ryi + 1,
        ;
        assert(k == cells.len());
        assert(cells.take(k) =~= cells);
    }
}


// ---------------------------------------------------------------------------
// Footprints beside live ink.
// ---------------------------------------------------------------------------

/// Footprints are stamped at least this far apart (pixels).
pub const FOOTSTEP_GAP: i32 = 120;

/// Whether the distance test of `should_stamp_footstep` stays within `i32`.
pub open spec fn stamp_fits(last: Option<(i32, i32)>, x: i32, y: i32) -> bool {
    match last {
        None => true,
        Some((lx, ly)) => {
            &&& i32::MIN <= x - lx <= i32::MAX
            &&& i32::MIN <= y - ly <= i32::MAX
            &&& (x - lx) * (x - lx) + (y - ly) * (y - ly) <= i32::MAX
        },
    }
}

/// Whether a footprint is due at (`x`, `y`): none was stamped yet in this
/// stroke, or the last one is at least `FOOTSTEP_GAP` away.
pub fn should_stamp_footstep(last: Option<(i32, i32)>, x: i32, y: i32) -> (b: bool)
    requires
        stamp_fits(last, x, y),
    ensures
        b == match last {
            None => true,
            Some((lx, ly)) => (x - lx) * (x - lx) + (y - ly) * (y - ly) >= FOOTSTEP_GAP
                * FOOTSTEP_GAP,
        },
{
    match last {
        None => true,
        Some((lx, ly)) => {
            let dx = x - lx;
            let dy = y - ly;
            assert(0 <= dx * dx && 0 <= dy * dy) by (nonlinear_arith);
            dx * dx + dy * dy >= FOOTSTEP_GAP * FOOTSTEP_GAP
        },
    }
}

/// Which way footprint `i` turns: left on even steps, right on odd ones.
pub open spec fn foot_side(i: u32) -> int {
    if i % 2 == 0 {
        -1
    } else {
        1
    }
}

/// The pixels of footprint `i` at (`x`, `y`): heel, ball and three toes,
/// mirrored on alternate steps.
pub open spec fn footprint_pixels(x: i32, y: i32, i: u32) -> Seq<(i32, i32)> {
    let side = foot_side(i);
    let tilt = side * 5;
    ellipse_pixels(x, y, 8, 12) + ellipse_pixels((x + side * 8) as i32, (y - 15) as i32, 5, 7)
        + ellipse_pixels((x + side * 2 + tilt) as i32, (y - 25) as i32, 3, 4) + ellipse_pixels(
        (x + side * 9 + tilt) as i32,
        (y - 27) as i32,
        3,
        4,
    ) + ellipse_pixels((x + side * 15 + tilt) as i32, (y - 23) as i32, 2, 3)
}

/// Whether every pixel of the footprint lies within `i32` coordinates.
pub open spec fn footprint_fits(x: i32, y: i32, i: u32) -> bool {
    &&& foot_side(i) < 0 ==> i32::MIN + 22 <= x <= i32::MAX - 8
    &&& foot_side(i) > 0 ==> i32::MIN + 8 <= x <= i32::MAX - 22
    &&& i32::MIN + 31 <= y <= i32::MAX - 12
}

/// Stamps a tiny solid footprint beside live ink; returns its pixels.
pub fn draw_faded_footstep(x: i32, y: i32, i: u32) -> (px: Vec<(i32, i32)>)
    requires
        footprint_fits(x, y, i),
    ensures
        px@ == footprint_pixels(x, y, i),
{
    let side: i32 = if i % 2 == 0 {
        -1
    } else {
        1
    };
    let tilt = side * 5;
    let mut px: Vec<(i32, i32)> = Vec::new();
    solid_ellipse(x, y, 8, 12, &mut px);
    solid_ellipse(x + side * 8, y - 15, 5, 7, &mut px);
    solid_ellipse(x + side * 2 + tilt, y - 25, 3, 4, &mut px);
    solid_ellipse(x + side * 9 + tilt, y - 27, 3, 4, &mut px);
    solid_ellipse(x + side * 15 + tilt, y - 23, 2, 3, &mut px);
    assert(px@ =~= footprint_pixels(x, y, i));
    px
}

// ---------------------------------------------------------------------------
// Ink thickness.
// ---------------------------------------------------------------------------

/// The ink radius of a qtfb pen event of pressure `d`: 2 to 4 pixels.
pub fn qtfb_ink_radius(d: i32) -> (r: i32)
    ensures
        r == 2 + (if d < 0 {
            0
        } else if d > 100 {
            100
        } else {
            d as int
        }) / 45,
        2 <= r <= 4,
{
    let c = if d < 0 {
        0
    } else if d > 100 {
        100
    } else {
        d
    };
    2 + c / 45
}

// ---------------------------------------------------------------------------
// Writing a planned reply out, a few points per frame.
// ---------------------------------------------------------------------------

/// Points written per animation frame.
pub const WRITE_BUDGET: usize = 26;

/// One brush movement of the reply's pen.
#[derive(Debug, Clone, Copy, PartialEq, Eq, Structural)]
pub enum WriteOp {
    /// The first point of a stroke: a dot.
    Dot { x: i32, y: i32 },
    /// Every later point: a line from the previous one.
    Line { x0: i32, y0: i32, x1: i32, y1: i32 },
}

/// The brush movements of one stroke.
pub open spec fn stroke_ops(s: Seq<(i32, i32)>) -> Seq<WriteOp> {
    Seq::new(
        s.len(),
        |j: int|
            if j == 0 {
                WriteOp::Dot { x: s[0].0, y: s[0].1 }
            } else {
                WriteOp::Line { x0: s[j - 1].0, y0: s[j - 1].1, x1: s[j].0, y1: s[j].1 }
            },
    )
}

/// The brush movements of all strokes, in order.
pub open spec fn all_ops(ss: Seq<Seq<(i32, i32)>>) -> Seq<WriteOp>
    decreases ss.len(),
{
    if ss.len() == 0 {
        Seq::empty()
    } else {
        all_ops(ss.drop_last()) + stroke_ops(ss.last())
    }
}

pub open spec fn strokes_view(v: Seq<Vec<(i32, i32)>>) -> Seq<Seq<(i32, i32)>> {
    v.map_values(|s: Vec<(i32, i32)>| s@)
}

/// A reply laid out as strokes, and how far its writing has got: stroke
/// `stroke_i`, point `point_i` within it.
pub struct WritePlan {
    pub strokes: Vec<Vec<(i32, i32)>>,
    pub stroke_i: usize,
    pub point_i: usize,
    /// Where the next streamed chunk's first line starts.
    pub next_y: i32,
}

proof fn lemma_all_ops_concat(a: Seq<Seq<(i32, i32)>>, b: Seq<Seq<(i32, i32)>>)
    ensures
        all_ops(a + b) == all_ops(a) + all_ops(b),
    decreases b.len(),
{
    if b.len() == 0 {
        assert(a + b =~= a);
        assert(all_ops(a) + all_ops(b) =~= all_ops(a));
    } else {
        lemma_all_ops_concat(a, b.drop_last());
        assert((a + b).drop_last() =~= a + b.drop_last());
    }
}

proof fn lemma_written_bound(p: WritePlan)
    requires
        p.wf(),
    ensures
        p.written() <= all_ops(p.view_strokes()).len(),
        p.stroke_i < p.strokes@.len() ==> all_ops(p.view_strokes().take(p.stroke_i + 1))
            == all_ops(p.view_strokes().take(p.stroke_i as int)) + stroke_ops(
            p.view_strokes()[p.stroke_i as int],
        ),
        p.stroke_i < p.strokes@.len() ==> all_ops(p.view_strokes()) == all_ops(
            p.view_strokes().take(p.stroke_i + 1),
        ) + all_ops(p.view_strokes().skip(p.stroke_i + 1)),
{
    let ss = p.view_strokes();
    let si = p.stroke_i as int;
    if si < ss.len() {
        lemma_all_ops_concat(ss.take(si + 1), ss.skip(si + 1));
        assert(ss.take(si + 1) + ss.skip(si + 1) =~= ss);
        assert(ss.take(si + 1).drop_last() =~= ss.take(si));
        assert(ss[si] == p.strokes@[si]@);
    } else {
        assert(ss.take(si) =~= ss);
    }
}

impl WritePlan {
    pub open spec fn view_strokes(&self) -> Seq<Seq<(i32, i32)>> {
        strokes_view(self.strokes@)
    }

    /// How many brush movements have been made.
    pub open spec fn written(&self) -> nat {
        all_ops(self.view_strokes().take(self.stroke_i as int)).len() + self.point_i as nat
    }

    pub open spec fn wf(&self) -> bool {
        &&& self.stroke_i <= self.strokes@.len()
        &&& self.stroke_i < self.strokes@.len() ==> self.point_i <= self.strokes@[self.stroke_i as int]@.len()
        &&& self.stroke_i == self.strokes@.len() ==> self.point_i == 0
    }

    /// A plan of `strokes`, nothing written yet.
    pub fn new(strokes: Vec<Vec<(i32, i32)>>, next_y: i32) -> (p: Self)
        ensures
            p.wf(),
            p.strokes@ == strokes@,
            p.stroke_i == 0,
            p.point_i == 0,
            p.next_y == next_y,
    {
        WritePlan { strokes, stroke_i: 0, point_i: 0, next_y }
    }

    /// Whether every stroke has been written.
    pub fn is_done(&self) -> (b: bool)
        ensures
            b == (self.stroke_i >= self.strokes@.len()),
    {
        self.stroke_i >= self.strokes.len()
    }

    /// Writes the next `budget` points (fewer when the plan runs out):
    /// returns the brush movements made, in order.
    pub fn step(&mut self, budget: usize) -> (ops: Vec<WriteOp>)
        requires
            old(self).wf(),
        ensures
            final(self).wf(),
            final(self).strokes@ == old(self).strokes@,
            final(self).next_y == old(self).next_y,
            final(self).written() == if old(self).written() + budget <= all_ops(
                old(self).view_strokes(),
            ).len() {
                old(self).written() + budget
            } else {
                all_ops(old(self).view_strokes()).len() as int
            },
            ops@ == all_ops(old(self).view_strokes()).subrange(
                old(self).written() as int,
                final(self).written() as int,
            ),
            final(self).written() < old(self).written() + budget ==> final(self).stroke_i
                == final(self).strokes@.len(),
            budget > 0 && final(self).written() == old(self).written() + budget
                ==> final(self).stroke_i < final(self).strokes@.len() && final(self).point_i >= 1,
            budget == 0 ==> final(self).stroke_i == old(self).stroke_i && final(self).point_i
                == old(self).point_i,
    {
        let ghost ss = self.view_strokes();
        let ghost all = all_ops(ss);
        let ghost c0 = self.written();
        let mut ops: Vec<WriteOp> = Vec::new();
        let mut left = budget;
        proof {
            lemma_written_bound(*self);
        }
        assert(ops@ =~= all.subrange(c0 as int, c0 as int));
        while left > 0 && self.stroke_i < self.strokes.len()
            invariant
                self.wf(),
                ss == self.view_strokes(),
                all == all_ops(ss),
                c0 <= self.written() <= all.len(),
                left == budget - (self.written() - c0),
                ops@ == all.subrange(c0 as int, self.written() as int),
                left == 0 && budget > 0 ==> self.stroke_i < self.strokes@.len() && self.point_i
                    >= 1,
                budget == 0 ==> self.written() == c0,
                budget == 0 ==> self.stroke_i == old(self).stroke_i,
                budget == 0 ==> self.point_i == old(self).point_i,
                self.strokes@ == old(self).strokes@,
                self.next_y == old(self).next_y,
            decreases all.len() - self.written() + (self.strokes@.len() - self.stroke_i),
        {
            let si = self.stroke_i;
            let pi = self.point_i;
            let n = self.strokes[si].len();
            let ghost before = all_ops(ss.take(si as int));
            proof {
                lemma_written_bound(*self);
                assert(ss[si as int] == self.strokes@[si as int]@);
            }
            if pi >= n {
                self.stroke_i = si + 1;
                self.point_i = 0;
            } else {
                let stroke = &self.strokes[si];
                let (x, y) = stroke[pi];
                let op = if pi > 0 {
                    let (px, py) = stroke[pi - 1];
                    WriteOp::Line { x0: px, y0: py, x1: x, y1: y }
                } else {
                    WriteOp::Dot { x, y }
                };
                proof {
                    assert(all[before.len() + pi] == stroke_ops(ss[si as int])[pi as int]);
                    assert(op == stroke_ops(ss[si as int])[pi as int]);
                }
                let ghost o = ops@;
                ops.push(op);
                self.point_i = pi + 1;
                left = left - 1;
                assert(ops@ =~= all.subrange(c0 as int, self.written() as int));
            }
        }
        proof {
            if self.stroke_i == self.strokes@.len() {
                assert(ss.take(self.stroke_i as int) =~= ss);
            }
        }
        ops
    }

    /// How many points the plan holds in all.
    pub fn point_count(&self) -> (n: usize)
        requires
            all_ops(self.view_strokes()).len() <= usize::MAX,
        ensures
            n == all_ops(self.view_strokes()).len(),
    {
        let ghost ss = self.view_strokes();
        let mut n: usize = 0;
        let mut i: usize = 0;
        while i < self.strokes.len()
            invariant
                i <= self.strokes@.len(),
                ss == self.view_strokes(),
                all_ops(ss).len() <= usize::MAX,
                n == all_ops(ss.take(i as int)).len(),
            decreases self.strokes@.len() - i,
        {
            proof {
                assert(ss.take(i + 1).drop_last() =~= ss.take(i as int));
                assert(ss.take(i + 1).last() == self.strokes@[i as int]@);
                lemma_all_ops_concat(ss.take(i + 1), ss.skip(i + 1));
                assert(ss.take(i + 1) + ss.skip(i + 1) =~= ss);
            }
            n = n + self.strokes[i].len();
            i = i + 1;
        }
        assert(ss.take(self.strokes@.len() as int) =~= ss);
        n
    }

    /// Splices a streamed continuation (laid out from `next_y` on) into the
    /// running animation; an empty one changes nothing.
    pub fn append(&mut self, cont: WritePlan)
        requires
            old(self).wf(),
        ensures
            final(self).wf(),
            final(self).stroke_i == old(self).stroke_i,
            final(self).point_i == old(self).point_i,
            cont.strokes@.len() == 0 ==> final(self).strokes@ == old(self).strokes@
                && final(self).next_y == old(self).next_y,
            cont.strokes@.len() > 0 ==> final(self).strokes@ == old(self).strokes@ + cont.strokes@
                && final(self).next_y == cont.next_y,
    {
        if cont.strokes.len() == 0 {
            return;
        }
        let mut more = cont.strokes;
        self.strokes.append(&mut more);
        self.next_y = cont.next_y;
    }
}

/// Law: splicing a continuation into a running animation leaves what has
/// been written untouched: the same number of movements, and the plan's
/// movements up to there are the ones already made.
pub proof fn lemma_append_keeps_written(p: WritePlan, cont: Seq<Seq<(i32, i32)>>)
    requires
        p.wf(),
    ensures
        all_ops(p.view_strokes() + cont).take(p.written() as int) == all_ops(p.view_strokes()).take(
            p.written() as int,
        ),
        (p.view_strokes() + cont).take(p.stroke_i as int) == p.view_strokes().take(p.stroke_i as int),
{
    let ss = p.view_strokes();
    lemma_all_ops_concat(ss, cont);
    lemma_all_ops_concat(ss.take(p.stroke_i as int), ss.skip(p.stroke_i as int));
    assert(ss.take(p.stroke_i as int) + ss.skip(p.stroke_i as int) =~= ss);
    if p.stroke_i < ss.len() {
        lemma_all_ops_concat(ss.take(p.stroke_i + 1), ss.skip(p.stroke_i + 1));
        assert(ss.take(p.stroke_i + 1) + ss.skip(p.stroke_i + 1) =~= ss);
        assert(ss.take(p.stroke_i + 1).drop_last() =~= ss.take(p.stroke_i as int));
    }
    assert(p.written() <= all_ops(ss).len());
    assert((ss + cont).take(p.stroke_i as int) =~= ss.take(p.stroke_i as int));
    assert(all_ops(ss + cont).take(p.written() as int) =~= all_ops(ss).take(p.written() as int));
}

// ---------------------------------------------------------------------------
// Lingering.
// ---------------------------------------------------------------------------

/// How long a written reply stays on the page: four seconds plus two
/// milliseconds per point, at most twenty seconds.
pub fn linger_ms(points: usize) -> (ms: u64)
    requires
        points <= (u64::MAX - 4000) / 2,
    ensures
        ms == if 4000 + 2 * points <= 20000 {
            4000 + 2 * points
        } else {
            20000
        },
{
    let ms = 4000 + (points as u64) * 2;
    if ms <= 20000 {
        ms
    } else {
        20000
    }
}


// ---------------------------------------------------------------------------
// Laying a reply out on the page.
// ---------------------------------------------------------------------------

/// Height of a line of the reply's script (96 px type, 1.25 leading).
pub const REPLY_LINE_H: i32 = 120;

/// Where the wobble generator starts for each reply chunk.
pub const JITTER_SEED: u32 = 0x1234;

/// One step of the wobble generator (a linear congruential one).
pub open spec fn next_seed(s: u32) -> u32 {
    s.wrapping_mul(1664525).wrapping_add(1013904223)
}

/// The generator after `k` steps.
pub open spec fn seed_after(k: nat) -> u32
    decreases k,
{
    if k == 0 {
        JITTER_SEED
    } else {
        next_seed(seed_after((k - 1) as nat))
    }
}

/// The vertical wobble drawn from a generator state: -3 to 3 pixels.
pub open spec fn wobble_of(s: u32) -> int {
    ((s >> 16) % 7) as int - 3
}

/// A line of the reply as the handwriting script traced it: its raster
/// width and its strokes in raster coordinates.
pub struct TracedLine {
    pub width: i32,
    pub strokes: Vec<Vec<(i32, i32)>>,
}

pub open spec fn lines_view(v: Seq<TracedLine>) -> Seq<(i32, Seq<Seq<(i32, i32)>>)> {
    v.map_values(|l: TracedLine| (l.width, strokes_view(l.strokes@)))
}

/// Where the first line of a chunk goes: right below the previous chunk
/// when it continues one, else a third of the way down the space the
/// lines leave free, but at least 60 px from the top.
pub open spec fn reply_top(n_lines: nat, y_start: Option<i32>) -> int {
    match y_start {
        Some(y) => y as int,
        None => {
            let free = crate::pen::SCREEN_H - REPLY_LINE_H * n_lines;
            if free >= 180 {
                free / 3
            } else {
                60
            }
        },
    }
}

/// The left edge that centers a line of `width` pixels.
pub open spec fn line_x0(width: i32) -> int {
    crate::pen::trunc_div(crate::pen::SCREEN_W - width, 2)
}

/// A traced stroke moved to the page.
pub open spec fn place_stroke(s: Seq<(i32, i32)>, x0: int, y: int, wobble: int) -> Seq<(i32, i32)> {
    s.map_values(|p: (i32, i32)| ((x0 + p.0) as i32, (y + p.1 + wobble) as i32))
}

pub open spec fn place_strokes(ss: Seq<Seq<(i32, i32)>>, x0: int, y: int, wobble: int) -> Seq<
    Seq<(i32, i32)>,
> {
    ss.map_values(|s: Seq<(i32, i32)>| place_stroke(s, x0, y, wobble))
}

/// The page strokes of the lines, line `k` centered, `REPLY_LINE_H * k`
/// below `top`, and shifted by the `k + 1`-th wobble.
pub open spec fn layout_strokes(lines: Seq<(i32, Seq<Seq<(i32, i32)>>)>, top: int) -> Seq<
    Seq<(i32, i32)>,
>
    decreases lines.len(),
{
    if lines.len() == 0 {
        Seq::empty()
    } else {
        let k = (lines.len() - 1) as nat;
        layout_strokes(lines.drop_last(), top) + place_strokes(
            lines.last().1,
            line_x0(lines.last().0),
            top + REPLY_LINE_H * k,
            wobble_of(seed_after(k + 1)),
        )
    }
}

pub open spec fn point_fits(p: (i32, i32), x0: int, y: int, wobble: int) -> bool {
    &&& i32::MIN <= x0 + p.0 <= i32::MAX
    &&& i32::MIN <= y + p.1 <= i32::MAX
    &&& i32::MIN <= y + p.1 + wobble <= i32::MAX
}

pub open spec fn strokes_fit(ss: Seq<Seq<(i32, i32)>>, x0: int, y: int, wobble: int) -> bool {
    forall|j: int, i: int|
        0 <= j < ss.len() && 0 <= i < ss[j].len() ==> point_fits(#[trigger] ss[j][i], x0, y, wobble)
}

/// Whether laying the lines out from `top` stays within `i32` arithmetic.
pub open spec fn layout_fits(lines: Seq<(i32, Seq<Seq<(i32, i32)>>)>, top: int) -> bool {
    &&& REPLY_LINE_H * lines.len() <= i32::MAX
    &&& i32::MIN <= top <= i32::MAX
    &&& top + REPLY_LINE_H * lines.len() <= i32::MAX
    &&& forall|k: int|
        0 <= k < lines.len() ==> i32::MIN <= crate::pen::SCREEN_W - (#[trigger] lines[k]).0
            <= i32::MAX && strokes_fit(
            lines[k].1,
            line_x0(lines[k].0),
            top + REPLY_LINE_H * k,
            wobble_of(seed_after((k + 1) as nat)),
        )
}

fn place_stroke_exec(s: &Vec<(i32, i32)>, x0: i32, y: i32, wobble: i32) -> (out: Vec<(i32, i32)>)
    requires
        forall|i: int| 0 <= i < s@.len() ==> point_fits(#[trigger] s@[i], x0 as int, y as int, wobble as int),
    ensures
        out@ == place_stroke(s@, x0 as int, y as int, wobble as int),
{
    let mut out: Vec<(i32, i32)> = Vec::new();
    let mut i: usize = 0;
    while i < s.len()
        invariant
            i <= s@.len(),
            forall|i: int| 0 <= i < s@.len() ==> point_fits(#[trigger] s@[i], x0 as int, y as int, wobble as int),
            out@ == place_stroke(s@.take(i as int), x0 as int, y as int, wobble as int),
        decreases s@.len() - i,
    {
        let (sx, sy) = s[i];
        assert(point_fits(s@[i as int], x0 as int, y as int, wobble as int));
        let p = (x0 + sx, y + sy + wobble);
        out.push(p);
        assert(place_stroke(s@.take(i + 1), x0 as int, y as int, wobble as int) =~= place_stroke(
            s@.take(i as int),
            x0 as int,
            y as int,
            wobble as int,
        ).push(p));
        i = i + 1;
    }
    assert(s@.take(s@.len() as int) =~= s@);
    out
}

fn place_strokes_exec(
    ss: &Vec<Vec<(i32, i32)>>,
    x0: i32,
    y: i32,
    wobble: i32,
    out: &mut Vec<Vec<(i32, i32)>>,
)
    requires
        strokes_fit(strokes_view(ss@), x0 as int, y as int, wobble as int),
    ensures
        strokes_view(final(out)@) == strokes_view(old(out)@) + place_strokes(
            strokes_view(ss@),
            x0 as int,
            y as int,
            wobble as int,
        ),
{
    let ghost sv = strokes_view(ss@);
    let ghost o = strokes_view(out@);
    let mut j: usize = 0;
    assert(o + place_strokes(sv.take(0), x0 as int, y as int, wobble as int) =~= o);
    while j < ss.len()
        invariant
            j <= ss@.len(),
            sv == strokes_view(ss@),
            strokes_fit(sv, x0 as int, y as int, wobble as int),
            strokes_view(out@) == o + place_strokes(sv.take(j as int), x0 as int, y as int, wobble as int),
        decreases ss@.len() - j,
    {
        assert(sv[j as int] == ss@[j as int]@);
        assert forall|i: int| 0 <= i < ss@[j as int]@.len() implies point_fits(
            #[trigger] ss@[j as int]@[i],
            x0 as int,
            y as int,
            wobble as int,
        ) by {
            assert(sv[j as int][i] == ss@[j as int]@[i]);
        }
        let placed = place_stroke_exec(&ss[j], x0, y, wobble);
        let ghost before = strokes_view(out@);
        out.push(placed);
        assert(strokes_view(out@) =~= before.push(placed@));
        assert(place_strokes(sv.take(j + 1), x0 as int, y as int, wobble as int) =~= place_strokes(
            sv.take(j as int),
            x0 as int,
            y as int,
            wobble as int,
        ).push(place_stroke(sv[j as int], x0 as int, y as int, wobble as int)));
        j = j + 1;
    }
    assert(sv.take(ss@.len() as int) =~= sv);
}

/// Lays a reply chunk's traced lines out on the page, from `y_start` when
/// it continues an earlier chunk; nothing of it is written yet, and the
/// next chunk starts a line below its last one.
pub fn plan_reply(lines: &Vec<TracedLine>, y_start: Option<i32>) -> (p: WritePlan)
    requires
        layout_fits(lines_view(lines@), reply_top(lines@.len(), y_start)),
    ensures
        p.wf(),
        p.stroke_i == 0,
        p.point_i == 0,
        p.view_strokes() == layout_strokes(lines_view(lines@), reply_top(lines@.len(), y_start)),
        p.next_y == reply_top(lines@.len(), y_start) + REPLY_LINE_H * lines@.len(),
{
    let ghost lv = lines_view(lines@);
    let n = lines.len();
    assert(lv.len() == n);
    let total_h = REPLY_LINE_H * n as i32;
    let free = (crate::pen::SCREEN_H - total_h) / 3;
    let mut y = match y_start {
        Some(y) => y,
        None => if free < 60 {
            60
        } else {
            free
        },
    };
    let ghost top = y as int;
    assert(top == reply_top(n as nat, y_start));
    let mut seed: u32 = JITTER_SEED;
    let mut strokes: Vec<Vec<(i32, i32)>> = Vec::new();
    let mut k: usize = 0;
    assert(lv.take(0) =~= Seq::<(i32, Seq<Seq<(i32, i32)>>)>::empty());
    while k < n
        invariant
            k <= n == lines@.len(),
            lv == lines_view(lines@),
            layout_fits(lv, top),
            y == top + REPLY_LINE_H * k,
            seed == seed_after(k as nat),
            strokes_view(strokes@) == layout_strokes(lv.take(k as int), top),
        decreases n - k,
    {
        let line = &lines[k];
        seed = seed.wrapping_mul(1664525).wrapping_add(1013904223);
        let wobble = ((seed >> 16) % 7) as i32 - 3;
        assert(lv[k as int] == (line.width, strokes_view(line.strokes@)));
        assert(i32::MIN <= crate::pen::SCREEN_W - lv[k as int].0 <= i32::MAX);
        let x0 = (crate::pen::SCREEN_W - line.width) / 2;
        assert(x0 == line_x0(line.width));
        assert(wobble == wobble_of(seed_after((k + 1) as nat)));
        place_strokes_exec(&line.strokes, x0, y, wobble, &mut strokes);
        proof {
            let t = lv.take(k + 1);
            assert(t.drop_last() =~= lv.take(k as int));
            assert(t.last() == lv[k as int]);
        }
        assert(y + REPLY_LINE_H <= top + REPLY_LINE_H * n) by (nonlinear_arith)
            requires
                y == top + REPLY_LINE_H * k,
                k < n,
        ;
        y = y + REPLY_LINE_H;
        k = k + 1;
    }
    assert(lv.take(n as int) =~= lv);
    WritePlan::new(strokes, y)
}


/// Splices a streamed continuation into a running animation: the chunk's
/// lines are laid out from where the plan ends and appended to it.
pub fn append_reply(plan: &mut WritePlan, lines: &Vec<TracedLine>)
    requires
        old(plan).wf(),
        layout_fits(lines_view(lines@), old(plan).next_y as int),
    ensures
        final(plan).wf(),
        final(plan).stroke_i == old(plan).stroke_i,
        final(plan).point_i == old(plan).point_i,
        final(plan).view_strokes() == old(plan).view_strokes() + layout_strokes(
            lines_view(lines@),
            old(plan).next_y as int,
        ),
        final(plan).next_y == if layout_strokes(lines_view(lines@), old(plan).next_y as int).len()
            > 0 {
            old(plan).next_y + REPLY_LINE_H * lines@.len()
        } else {
            old(plan).next_y as int
        },
{
    let cont = plan_reply(lines, Some(plan.next_y));
    let ghost added = cont.strokes@;
    let ghost before = plan.strokes@;
    plan.append(cont);
    assert(strokes_view(before + added) =~= strokes_view(before) + strokes_view(added));
    proof {
        if added.len() == 0 {
            assert(strokes_view(added) =~= Seq::<Seq<(i32, i32)>>::empty());
            assert(strokes_view(before) + strokes_view(added) =~= strokes_view(before));
        }
    }
}

} // verus!
