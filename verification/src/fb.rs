//! A 640×480 RGBA framebuffer and the handful of primitives the game needs.
//! Pure software rendering: the same pixels on every platform.

use vstd::prelude::*;

verus! {

pub const WIDTH: usize = 640;

pub const HEIGHT: usize = 480;

#[derive(Clone, Copy, PartialEq, Eq, Debug, Structural)]
pub struct Color {
    pub r: u8,
    pub g: u8,
    pub b: u8,
    pub a: u8,
}

/// `x / d` rounded toward zero, as integer division does on machine integers.
pub open spec fn trunc_div(x: int, d: int) -> int {
    if x >= 0 {
        x / d
    } else {
        -((-x) / d)
    }
}

/// One channel of the linear blend from `a` toward `b` by t/255.
pub open spec fn lerp_of(a: u8, b: u8, t: u8) -> u8 {
    let v = a + trunc_div((b - a) * t, 255);
    (if v < 0 {
        0
    } else if v > 255 {
        255
    } else {
        v
    }) as u8
}

impl Color {
    pub fn rgb(r: u8, g: u8, b: u8) -> (c: Color)
        ensures
            c == (Color { r, g, b, a: 255 }),
    {
        Color { r, g, b, a: 255 }
    }

    pub fn rgba(r: u8, g: u8, b: u8, a: u8) -> (c: Color)
        ensures
            c == (Color { r, g, b, a }),
    {
        Color { r, g, b, a }
    }

    pub fn with_alpha(self, a: u8) -> (c: Color)
        ensures
            c == (Color { a, ..self }),
    {
        Color { a, ..self }
    }

    /// Linear blend toward `other` by t/255; the result is opaque.
    pub fn mix(self, other: Color, t: u8) -> (c: Color)
        ensures
            c == (Color {
                r: lerp_of(self.r, other.r, t),
                g: lerp_of(self.g, other.g, t),
                b: lerp_of(self.b, other.b, t),
                a: 255,
            }),
    {
        Color {
            r: lerp(self.r, other.r, t),
            g: lerp(self.g, other.g, t),
            b: lerp(self.b, other.b, t),
            a: 255,
        }
    }
}

fn lerp(a: u8, b: u8, t: u8) -> (v: u8)
    ensures
        v == lerp_of(a, b, t),
{
    let diff = b as i32 - a as i32;
    assert(-65025 <= diff * t <= 65025) by (nonlinear_arith)
        requires
            -255 <= diff <= 255,
            0 <= t <= 255,
    ;
    let d = diff * t as i32;
    let q = d / 255;
    assert(q == trunc_div(d as int, 255));
    let v = a as i32 + q;
    if v < 0 {
        0
    } else if v > 255 {
        255
    } else {
        v as u8
    }
}

pub struct Frame {
    /// RGBA, row-major, WIDTH×HEIGHT.
    pub px: Vec<u8>,
}

impl Default for Frame {
    fn default() -> (f: Frame)
        ensures
            f.wf(),
            forall|i: int| 0 <= i < f.px@.len() ==> f.px@[i] == 0,
    {
        Self::new()
    }
}

/// One channel of `src` composited over `dst` with opacity a/255.
pub open spec fn blend_of(src: u8, dst: u8, a: u8) -> u8 {
    if a == 255 {
        src
    } else {
        ((src as nat * a as nat + dst as nat * (255 - a) as nat) / 255) as u8
    }
}

/// Byte `k` (0..4 = r, g, b, a) of a pixel after painting it in `c`; the
/// painted pixel is opaque.
pub open spec fn paint_byte(old: u8, k: int, c: Color) -> u8 {
    if k == 0 {
        blend_of(c.r, old, c.a)
    } else if k == 1 {
        blend_of(c.g, old, c.a)
    } else if k == 2 {
        blend_of(c.b, old, c.a)
    } else {
        255
    }
}

/// Paint, once each, the on-screen pixels `(x, y)` that `sel` picks. A fully
/// transparent colour paints nothing.
pub open spec fn paint_where(px: Seq<u8>, c: Color, sel: spec_fn(int, int) -> bool) -> Seq<u8> {
    Seq::new(
        px.len(),
        |i: int|
            {
                let p = i / 4;
                if c.a != 0 && sel(p % (WIDTH as int), p / (WIDTH as int)) {
                    paint_byte(px[i], i % 4, c)
                } else {
                    px[i]
                }
            },
    )
}

pub open spec fn max_of(a: int, b: int) -> int {
    if a >= b {
        a
    } else {
        b
    }
}

pub open spec fn min_of(a: int, b: int) -> int {
    if a <= b {
        a
    } else {
        b
    }
}

/// The pixels of the rectangle at (x, y) of size w×h, clipped to the screen.
pub open spec fn in_rect(x: int, y: int, w: int, h: int) -> spec_fn(int, int) -> bool {
    |qx: int, qy: int|
        max_of(x, 0) <= qx < min_of(x + w, WIDTH as int) && max_of(y, 0) <= qy < min_of(
            y + h,
            HEIGHT as int,
        )
}

/// The single pixel (x, y), if it is on screen.
pub open spec fn at_pixel(x: int, y: int) -> spec_fn(int, int) -> bool {
    |qx: int, qy: int| qx == x && qy == y && 0 <= x < WIDTH && 0 <= y < HEIGHT
}

proof fn lemma_pixel_index(x: int, y: int, k: int)
    requires
        0 <= x < WIDTH,
        0 <= y < HEIGHT,
        0 <= k < 4,
    ensures
        ((y * WIDTH + x) * 4 + k) / 4 == y * WIDTH + x,
        ((y * WIDTH + x) * 4 + k) % 4 == k,
        (y * WIDTH + x) % (WIDTH as int) == x,
        (y * WIDTH + x) / (WIDTH as int) == y,
        (y * WIDTH + x) * 4 + 3 < WIDTH * HEIGHT * 4,
{
    vstd::arithmetic::div_mod::lemma_fundamental_div_mod_converse(
        (y * WIDTH + x) * 4 + k,
        4,
        y * WIDTH + x,
        k,
    );
    vstd::arithmetic::div_mod::lemma_fundamental_div_mod_converse(
        y * WIDTH + x,
        WIDTH as int,
        y,
        x,
    );
    assert((y * WIDTH + x) * 4 + 3 < WIDTH * HEIGHT * 4) by (nonlinear_arith)
        requires
            0 <= x < WIDTH,
            0 <= y < HEIGHT,
    ;
}

impl Frame {
    /// The buffer holds exactly one RGBA quadruple per pixel.
    pub open spec fn wf(&self) -> bool {
        self.px@.len() == WIDTH * HEIGHT * 4
    }

    pub fn new() -> (f: Frame)
        ensures
            f.wf(),
            forall|i: int| 0 <= i < f.px@.len() ==> f.px@[i] == 0,
    {
        Frame { px: vec![0; WIDTH * HEIGHT * 4] }
    }

    pub fn clear(&mut self, c: Color)
        requires
            old(self).wf(),
        ensures
            final(self).wf(),
            final(self).px@ == Seq::new(
                (WIDTH * HEIGHT * 4) as nat,
                |i: int|
                    if i % 4 == 0 {
                        c.r
                    } else if i % 4 == 1 {
                        c.g
                    } else if i % 4 == 2 {
                        c.b
                    } else {
                        255u8
                    },
            ),
    {
        let n = self.px.len();
        let mut p: usize = 0;
        while p < n / 4
            invariant
                n == WIDTH * HEIGHT * 4,
                self.px@.len() == n,
                p <= n / 4,
                forall|i: int|
                    0 <= i < 4 * p ==> self.px@[i] == (if i % 4 == 0 {
                        c.r
                    } else if i % 4 == 1 {
                        c.g
                    } else if i % 4 == 2 {
                        c.b
                    } else {
                        255u8
                    }),
            decreases n / 4 - p,
        {
            let i = 4 * p;
            self.px.set(i, c.r);
            self.px.set(i + 1, c.g);
            self.px.set(i + 2, c.b);
            self.px.set(i + 3, 255);
            p = p + 1;
        }
        assert(self.px@ =~= Seq::new(
            (WIDTH * HEIGHT * 4) as nat,
            |i: int|
                if i % 4 == 0 {
                    c.r
                } else if i % 4 == 1 {
                    c.g
                } else if i % 4 == 2 {
                    c.b
                } else {
                    255u8
                },
        ));
    }

    /// Fill the rectangle at (x, y) of size w×h, clipped to the screen.
    pub fn fill_rect(&mut self, x: i32, y: i32, w: i32, h: i32, c: Color)
        requires
            old(self).wf(),
            i32::MIN <= x + w <= i32::MAX,
            i32::MIN <= y + h <= i32::MAX,
        ensures
            final(self).wf(),
            final(self).px@ == paint_where(old(self).px@, c, in_rect(x as int, y as int, w as int, h as int)),
    {
        let ghost old_px = self.px@;
        let y0: i32 = if y >= 0 { y } else { 0 };
        let y1: i32 = if y + h <= HEIGHT as i32 { y + h } else { HEIGHT as i32 };
        let x0: i32 = if x >= 0 { x } else { 0 };
        let x1: i32 = if x + w <= WIDTH as i32 { x + w } else { WIDTH as i32 };
        let mut yy = y0;
        assert(paint_where(old_px, c, |qx: int, qy: int| false) =~= old_px);
        proof {
            lemma_paint_congruent(old_px, c, |qx: int, qy: int| false, |qx: int, qy: int| x0 <= qx < x1 && y0 <= qy < yy);
        }
        while yy < y1
            invariant
                self.wf(),
                old_px.len() == WIDTH * HEIGHT * 4,
                y0 <= yy,
                yy <= y1 || yy == y0,
                self.px@ == paint_where(old_px, c, |qx: int, qy: int| x0 <= qx < x1 && y0 <= qy < yy),
            decreases y1 - yy,
        {
            let mut xx = x0;
            proof {
                lemma_paint_congruent(
                    old_px,
                    c,
                    |qx: int, qy: int| x0 <= qx < x1 && y0 <= qy < yy,
                    |qx: int, qy: int| x0 <= qx < x1 && (y0 <= qy < yy || (qy == yy && qx < xx)),
                );
            }
            while xx < x1
                invariant
                    self.wf(),
                    old_px.len() == WIDTH * HEIGHT * 4,
                    y0 <= yy < y1,
                    x0 <= xx,
                    xx <= x1 || xx == x0,
                    self.px@ == paint_where(
                        old_px,
                        c,
                        |qx: int, qy: int| x0 <= qx < x1 && (y0 <= qy < yy || (qy == yy && qx < xx)),
                    ),
                decreases x1 - xx,
            {
                self.put(xx, yy, c);
                proof {
                    lemma_paint_extend(
                        old_px,
                        c,
                        |qx: int, qy: int| x0 <= qx < x1 && (y0 <= qy < yy || (qy == yy && qx < xx)),
                        |qx: int, qy: int| x0 <= qx < x1 && (y0 <= qy < yy || (qy == yy && qx < xx + 1)),
                        xx as int,
                        yy as int,
                    );
                }
                xx = xx + 1;
            }
            proof {
                lemma_paint_congruent(
                    old_px,
                    c,
                    |qx: int, qy: int| x0 <= qx < x1 && (y0 <= qy < yy || (qy == yy && qx < xx)),
                    |qx: int, qy: int| x0 <= qx < x1 && y0 <= qy < yy + 1,
                );
            }
            yy = yy + 1;
        }
        proof {
            let s1 = |qx: int, qy: int| x0 <= qx < x1 && y0 <= qy < yy;
            let s2 = in_rect(x as int, y as int, w as int, h as int);
            assert forall|a: int, b: int| 0 <= a < WIDTH && 0 <= b < HEIGHT implies #[trigger] s1(a, b)
                == s2(a, b) by {
                assert(s2(a, b) == (max_of(x as int, 0) <= a < min_of(x + w, WIDTH as int) && max_of(
                    y as int,
                    0,
                ) <= b < min_of(y + h, HEIGHT as int)));
            }
            lemma_paint_congruent(old_px, c, s1, s2);
        }
    }

    pub fn hline(&mut self, x: i32, y: i32, w: i32, c: Color)
        requires
            old(self).wf(),
            i32::MIN <= x + w <= i32::MAX,
            y < i32::MAX,
        ensures
            final(self).wf(),
            final(self).px@ == paint_where(old(self).px@, c, in_rect(x as int, y as int, w as int, 1)),
    {
        self.fill_rect(x, y, w, 1, c);
    }

    /// Four bands of thickness `t` along the edges of the rectangle.
    pub fn rect_outline(&mut self, x: i32, y: i32, w: i32, h: i32, t: i32, c: Color)
        requires
            old(self).wf(),
            i32::MIN <= x + w <= i32::MAX,
            i32::MIN <= y + h <= i32::MAX,
            i32::MIN <= y + t <= i32::MAX,
            i32::MIN <= x + t <= i32::MAX,
            i32::MIN <= y + h - t <= i32::MAX,
            i32::MIN <= x + w - t <= i32::MAX,
            i32::MIN <= y + h - t + t <= i32::MAX,
            i32::MIN <= x + w - t + t <= i32::MAX,
        ensures
            final(self).wf(),
            final(self).px@ == paint_where(
                paint_where(
                    paint_where(
                        paint_where(old(self).px@, c, in_rect(x as int, y as int, w as int, t as int)),
                        c,
                        in_rect(x as int, (y + h - t) as int, w as int, t as int),
                    ),
                    c,
                    in_rect(x as int, y as int, t as int, h as int),
                ),
                c,
                in_rect((x + w - t) as int, y as int, t as int, h as int),
            ),
    {
        self.fill_rect(x, y, w, t, c);
        self.fill_rect(x, y + h - t, w, t, c);
        self.fill_rect(x, y, t, h, c);
        self.fill_rect(x + w - t, y, t, h, c);
    }

    /// Filled rectangle with clipped corners — the game's "rounded" look:
    /// two overlapping bands, then a disc of radius `r` at each corner.
    pub fn fill_rrect(&mut self, x: i32, y: i32, w: i32, h: i32, r: i32, c: Color)
        requires
            old(self).wf(),
            rrect_ok(x as int, y as int, w as int, h as int, r as int),
        ensures
            final(self).wf(),
            final(self).px@ == rrect_of(old(self).px@, x as int, y as int, w as int, h as int, r as int, c),
    {
        self.fill_rect(x + r, y, w - 2 * r, h, c);
        self.fill_rect(x, y + r, w, h - 2 * r, c);
        self.disc(x + r, y + r, r, c);
        self.disc(x + w - r - 1, y + r, r, c);
        self.disc(x + r, y + h - r - 1, r, c);
        self.disc(x + w - r - 1, y + h - r - 1, r, c);
    }

    fn disc(&mut self, cx: i32, cy: i32, r: i32, c: Color)
        requires
            old(self).wf(),
            r <= 32767,
            r > i32::MIN,
            r >= 0 ==> i32::MIN <= cx - r && cx + r <= i32::MAX && i32::MIN <= cy - r && cy + r
                <= i32::MAX,
        ensures
            final(self).wf(),
            final(self).px@ == paint_where(old(self).px@, c, in_disc(cx as int, cy as int, r as int)),
    {
        let ghost old_px = self.px@;
        if r < 0 {
            proof {
                lemma_paint_congruent(old_px, c, |qx: int, qy: int| false, in_disc(cx as int, cy as int, r as int));
                assert(paint_where(old_px, c, |qx: int, qy: int| false) =~= old_px);
            }
            return ;
        }
        assert(r * r <= 32767 * 32767) by (nonlinear_arith)
            requires
                0 <= r <= 32767,
        ;
        let rr = r * r;
        let mut dy: i32 = -r;
        proof {
            assert(paint_where(old_px, c, |qx: int, qy: int| false) =~= old_px);
            lemma_paint_congruent(old_px, c, |qx: int, qy: int| false, disc_rows(cx as int, cy as int, r as int, dy as int));
        }
        while dy <= r
            invariant
                self.wf(),
                old_px.len() == WIDTH * HEIGHT * 4,
                0 <= r <= 32767,
                rr == r * r,
                -r <= dy <= r + 1,
                i32::MIN <= cx - r && cx + r <= i32::MAX && i32::MIN <= cy - r && cy + r <= i32::MAX,
                self.px@ == paint_where(old_px, c, disc_rows(cx as int, cy as int, r as int, dy as int)),
            decreases r + 1 - dy,
        {
            let mut dx: i32 = -r;
            proof {
                lemma_paint_congruent(
                    old_px,
                    c,
                    disc_rows(cx as int, cy as int, r as int, dy as int),
                    disc_part(cx as int, cy as int, r as int, dy as int, dx as int),
                );
            }
            while dx <= r
                invariant
                    self.wf(),
                    old_px.len() == WIDTH * HEIGHT * 4,
                    0 <= r <= 32767,
                    rr == r * r,
                    -r <= dy <= r,
                    -r <= dx <= r + 1,
                    i32::MIN <= cx - r && cx + r <= i32::MAX && i32::MIN <= cy - r && cy + r <= i32::MAX,
                    self.px@ == paint_where(
                        old_px,
                        c,
                        disc_part(cx as int, cy as int, r as int, dy as int, dx as int),
                    ),
                decreases r + 1 - dx,
            {
                assert(0 <= dx * dx <= 32767 * 32767 && 0 <= dy * dy <= 32767 * 32767)
                    by (nonlinear_arith)
                    requires
                        -32767 <= dx <= 32767,
                        -32767 <= dy <= 32767,
                ;
                let d2 = dx * dx + dy * dy;
                if d2 <= rr {
                    self.put(cx + dx, cy + dy, c);
                    proof {
                        lemma_paint_extend(
                            old_px,
                            c,
                            disc_part(cx as int, cy as int, r as int, dy as int, dx as int),
                            disc_part(cx as int, cy as int, r as int, dy as int, dx + 1),
                            (cx + dx) as int,
                            (cy + dy) as int,
                        );
                    }
                } else {
                    proof {
                        lemma_paint_congruent(
                            old_px,
                            c,
                            disc_part(cx as int, cy as int, r as int, dy as int, dx as int),
                            disc_part(cx as int, cy as int, r as int, dy as int, dx + 1),
                        );
                    }
                }
                dx = dx + 1;
            }
            proof {
                lemma_paint_congruent(
                    old_px,
                    c,
                    disc_part(cx as int, cy as int, r as int, dy as int, dx as int),
                    disc_rows(cx as int, cy as int, r as int, dy + 1),
                );
            }
            dy = dy + 1;
        }
        proof {
            lemma_paint_congruent(
                old_px,
                c,
                disc_rows(cx as int, cy as int, r as int, dy as int),
                in_disc(cx as int, cy as int, r as int),
            );
        }
    }

    /// Blit an 8-bit coverage mask of w×h (row-major) at (x, y) in `c`: each
    /// covered pixel is painted in `c` with its opacity scaled by the coverage.
    pub fn blit_mask(&mut self, x: i32, y: i32, w: usize, h: usize, mask: &[u8], c: Color)
        requires
            old(self).wf(),
            w > 0 && h > 0 ==> {
                &&& w * h <= mask@.len()
                &&& w - 1 <= i32::MAX && h - 1 <= i32::MAX
                &&& x + w - 1 <= i32::MAX && y + h - 1 <= i32::MAX
            },
        ensures
            final(self).wf(),
            final(self).px@ == blit_of(old(self).px@, x as int, y as int, w as int, h as int, mask@, c),
    {
        let ghost old_px = self.px@;
        let ghost m = mask@;
        if w == 0 || h == 0 {
            proof {
                lemma_blit_congruent(old_px, x as int, y as int, w as int, h as int, m, c,
                    |a: int, b: int| false, |a: int, b: int| true);
                assert(blit_where(old_px, x as int, y as int, w as int, h as int, m, c, |a: int, b: int| false)
                    =~= old_px);
            }
            return ;
        }
        proof {
            lemma_blit_congruent(old_px, x as int, y as int, w as int, h as int, m, c,
                |a: int, b: int| false, |a: int, b: int| b < 0);
            assert(blit_where(old_px, x as int, y as int, w as int, h as int, m, c, |a: int, b: int| false)
                =~= old_px);
        }
        let n = mask.len();
        let mut my: usize = 0;
        while my < h
            invariant
                self.wf(),
                n == mask@.len(),
                old_px.len() == WIDTH * HEIGHT * 4,
                m == mask@,
                w * h <= m.len(),
                w - 1 <= i32::MAX && h - 1 <= i32::MAX,
                x + w - 1 <= i32::MAX && y + h - 1 <= i32::MAX,
                my <= h,
                self.px@ == blit_where(old_px, x as int, y as int, w as int, h as int, m, c,
                    |a: int, b: int| b < my),
            decreases h - my,
        {
            let mut mx: usize = 0;
            proof {
                lemma_blit_congruent(old_px, x as int, y as int, w as int, h as int, m, c,
                    |a: int, b: int| b < my, |a: int, b: int| b < my || (b == my && a < 0));
            }
            while mx < w
                invariant
                    self.wf(),
                    n == mask@.len(),
                    old_px.len() == WIDTH * HEIGHT * 4,
                    m == mask@,
                    w * h <= m.len(),
                    w - 1 <= i32::MAX && h - 1 <= i32::MAX,
                    x + w - 1 <= i32::MAX && y + h - 1 <= i32::MAX,
                    my < h,
                    mx <= w,
                    self.px@ == blit_where(old_px, x as int, y as int, w as int, h as int, m, c,
                        |a: int, b: int| b < my || (b == my && a < mx)),
                decreases w - mx,
            {
                assert(my * w <= my * w + mx < w * h) by (nonlinear_arith)
                    requires
                        my < h,
                        mx < w,
                ;
                assert(my * w + mx < mask@.len());
                let cov = mask[my * w + mx];
                proof {
                    lemma_blit_step(old_px, x as int, y as int, w as int, h as int, m, c, my as int, mx as int);
                }
                if cov > 0 {
                    assert(cov as nat * c.a as nat / 255 <= 255) by (nonlinear_arith)
                        requires
                            cov <= 255,
                            c.a <= 255,
                    ;
                    let a = (cov as u32 * c.a as u32 / 255) as u8;
                    self.put(x + mx as i32, y + my as i32, c.with_alpha(a));
                } else {
                    proof {
                        let cur = self.px@;
                        let col = Color { a: cover_alpha(cov, c.a), ..c };
                        assert(cov as nat * c.a as nat == 0) by (nonlinear_arith)
                            requires
                                cov == 0,
                        ;
                        assert(paint_where(cur, col, at_pixel(x + mx, y + my)) =~= cur);
                    }
                }
                mx = mx + 1;
            }
            proof {
                lemma_blit_congruent(old_px, x as int, y as int, w as int, h as int, m, c,
                    |a: int, b: int| b < my || (b == my && a < mx), |a: int, b: int| b < my + 1);
            }
            my = my + 1;
        }
        proof {
            lemma_blit_congruent(old_px, x as int, y as int, w as int, h as int, m, c,
                |a: int, b: int| b < my, |a: int, b: int| true);
        }
    }

    /// Paint one pixel; off-screen pixels and transparent colours do nothing.
    pub fn put(&mut self, x: i32, y: i32, c: Color)
        requires
            old(self).wf(),
        ensures
            final(self).wf(),
            final(self).px@ == paint_where(old(self).px@, c, at_pixel(x as int, y as int)),
    {
        if x < 0 || y < 0 || x >= WIDTH as i32 || y >= HEIGHT as i32 || c.a == 0 {
            assert(self.px@ =~= paint_where(self.px@, c, at_pixel(x as int, y as int)));
            return ;
        }
        let ghost old_px = self.px@;
        let i = (y as usize * WIDTH + x as usize) * 4;
        proof {
            lemma_pixel_index(x as int, y as int, 0);
            lemma_pixel_index(x as int, y as int, 1);
            lemma_pixel_index(x as int, y as int, 2);
            lemma_pixel_index(x as int, y as int, 3);
        }
        if c.a == 255 {
            self.px.set(i, c.r);
            self.px.set(i + 1, c.g);
            self.px.set(i + 2, c.b);
            self.px.set(i + 3, 255);
        } else {
            let a = c.a as u32;
            let na = 255 - a;
            let r0 = self.px[i] as u32;
            let g0 = self.px[i + 1] as u32;
            let b0 = self.px[i + 2] as u32;
            proof {
                lemma_blend_range(c.r, old_px[i as int], c.a);
                lemma_blend_range(c.g, old_px[i + 1], c.a);
                lemma_blend_range(c.b, old_px[i + 2], c.a);
            }
            self.px.set(i, ((c.r as u32 * a + r0 * na) / 255) as u8);
            self.px.set(i + 1, ((c.g as u32 * a + g0 * na) / 255) as u8);
            self.px.set(i + 2, ((c.b as u32 * a + b0 * na) / 255) as u8);
            self.px.set(i + 3, 255);
        }
        proof {
            let target = paint_where(old_px, c, at_pixel(x as int, y as int));
            assert forall|j: int| 0 <= j < self.px@.len() implies self.px@[j] == target[j] by {
                if i <= j < i + 4 {
                    lemma_pixel_index(x as int, y as int, j - i);
                } else {
                    lemma_other_pixel(x as int, y as int, j);
                }
            }
            assert(self.px@ =~= target);
        }
    }
}

/// The opacity a covered pixel is painted with: coverage times `a`, over 255.
pub open spec fn cover_alpha(cov: u8, a: u8) -> u8 {
    (cov as nat * a as nat / 255) as u8
}

/// The pixels of the mask (by their place (mx, my) in it) that `done` picks,
/// painted over `px`.
pub open spec fn blit_where(
    px: Seq<u8>,
    x: int,
    y: int,
    w: int,
    h: int,
    mask: Seq<u8>,
    c: Color,
    done: spec_fn(int, int) -> bool,
) -> Seq<u8> {
    Seq::new(
        px.len(),
        |i: int|
            {
                let p = i / 4;
                let mx = p % (WIDTH as int) - x;
                let my = p / (WIDTH as int) - y;
                if 0 <= mx < w && 0 <= my < h && done(mx, my) && cover_alpha(mask[my * w + mx], c.a)
                    != 0 {
                    paint_byte(px[i], i % 4, Color { a: cover_alpha(mask[my * w + mx], c.a), ..c })
                } else {
                    px[i]
                }
            },
    )
}

/// The whole mask blitted over `px`.
pub open spec fn blit_of(px: Seq<u8>, x: int, y: int, w: int, h: int, mask: Seq<u8>, c: Color) -> Seq<u8> {
    blit_where(px, x, y, w, h, mask, c, |a: int, b: int| true)
}

proof fn lemma_blit_congruent(
    px: Seq<u8>,
    x: int,
    y: int,
    w: int,
    h: int,
    mask: Seq<u8>,
    c: Color,
    d1: spec_fn(int, int) -> bool,
    d2: spec_fn(int, int) -> bool,
)
    requires
        forall|a: int, b: int|
            #![trigger d1(a, b)]
            #![trigger d2(a, b)]
            0 <= a < w && 0 <= b < h ==> d1(a, b) == d2(a, b),
    ensures
        blit_where(px, x, y, w, h, mask, c, d1) == blit_where(px, x, y, w, h, mask, c, d2),
{
    assert(blit_where(px, x, y, w, h, mask, c, d1) =~= blit_where(px, x, y, w, h, mask, c, d2));
}

/// Painting the mask's pixel (mx, my), in row order after those before it.
proof fn lemma_blit_step(
    px: Seq<u8>,
    x: int,
    y: int,
    w: int,
    h: int,
    mask: Seq<u8>,
    c: Color,
    my: int,
    mx: int,
)
    requires
        px.len() == WIDTH * HEIGHT * 4,
        0 <= mx < w,
        0 <= my < h,
    ensures
        paint_where(
            blit_where(px, x, y, w, h, mask, c, |a: int, b: int| b < my || (b == my && a < mx)),
            Color { a: cover_alpha(mask[my * w + mx], c.a), ..c },
            at_pixel(x + mx, y + my),
        ) == blit_where(px, x, y, w, h, mask, c, |a: int, b: int| b < my || (b == my && a < mx + 1)),
{
    let s = blit_where(px, x, y, w, h, mask, c, |a: int, b: int| b < my || (b == my && a < mx));
    let col = Color { a: cover_alpha(mask[my * w + mx], c.a), ..c };
    let lhs = paint_where(s, col, at_pixel(x + mx, y + my));
    let rhs = blit_where(px, x, y, w, h, mask, c, |a: int, b: int| b < my || (b == my && a < mx + 1));
    assert forall|i: int| 0 <= i < px.len() implies lhs[i] == rhs[i] by {
        lemma_on_screen(i);
    }
    assert(lhs =~= rhs);
}

/// The pixels within distance `r` of (cx, cy).
pub open spec fn in_disc(cx: int, cy: int, r: int) -> spec_fn(int, int) -> bool {
    |qx: int, qy: int|
        -r <= qx - cx <= r && -r <= qy - cy <= r && (qx - cx) * (qx - cx) + (qy - cy) * (qy - cy)
            <= r * r
}

/// The disc's pixels in the rows above `cy + dy`.
pub open spec fn disc_rows(cx: int, cy: int, r: int, dy: int) -> spec_fn(int, int) -> bool {
    |qx: int, qy: int| qy - cy < dy && in_disc(cx, cy, r)(qx, qy)
}

/// The disc's pixels before `(cx + dx, cy + dy)` in row order.
pub open spec fn disc_part(cx: int, cy: int, r: int, dy: int, dx: int) -> spec_fn(int, int) -> bool {
    |qx: int, qy: int| (qy - cy < dy || (qy - cy == dy && qx - cx < dx)) && in_disc(cx, cy, r)(qx, qy)
}

pub open spec fn in_i32(v: int) -> bool {
    i32::MIN <= v <= i32::MAX
}

/// The rounded rectangle's arithmetic fits in `i32`.
pub open spec fn rrect_ok(x: int, y: int, w: int, h: int, r: int) -> bool {
    &&& i32::MIN < r <= 32767
    &&& in_i32(x + r) && in_i32(2 * r) && in_i32(w - 2 * r) && in_i32(y + r) && in_i32(h - 2 * r)
    &&& in_i32(x + r + (w - 2 * r)) && in_i32(y + h) && in_i32(x + w) && in_i32(y + r + (h - 2 * r))
    &&& in_i32(x + w - r) && in_i32(x + w - r - 1) && in_i32(y + h - r) && in_i32(y + h - r - 1)
    &&& (r >= 0 ==> in_i32(x + r - r) && in_i32(x + r + r) && in_i32(y + r - r) && in_i32(y + r + r)
        && in_i32(x + w - r - 1 - r) && in_i32(x + w - r - 1 + r) && in_i32(y + h - r - 1 - r)
        && in_i32(y + h - r - 1 + r))
}

/// Both bands, then the four corner discs, each painted over the last.
pub open spec fn rrect_of(px: Seq<u8>, x: int, y: int, w: int, h: int, r: int, c: Color) -> Seq<u8> {
    let p1 = paint_where(px, c, in_rect(x + r, y, w - 2 * r, h));
    let p2 = paint_where(p1, c, in_rect(x, y + r, w, h - 2 * r));
    let p3 = paint_where(p2, c, in_disc(x + r, y + r, r));
    let p4 = paint_where(p3, c, in_disc(x + w - r - 1, y + r, r));
    let p5 = paint_where(p4, c, in_disc(x + r, y + h - r - 1, r));
    paint_where(p5, c, in_disc(x + w - r - 1, y + h - r - 1, r))
}

/// Painting with selectors that agree on screen gives the same pixels.
pub proof fn lemma_paint_congruent(
    px: Seq<u8>,
    c: Color,
    s1: spec_fn(int, int) -> bool,
    s2: spec_fn(int, int) -> bool,
)
    requires
        forall|a: int, b: int|
            #![trigger s1(a, b)]
            #![trigger s2(a, b)]
            0 <= a < WIDTH && 0 <= b < HEIGHT ==> s1(a, b) == s2(a, b),
        px.len() == WIDTH * HEIGHT * 4,
    ensures
        paint_where(px, c, s1) == paint_where(px, c, s2),
{
    assert forall|i: int| 0 <= i < px.len() implies paint_where(px, c, s1)[i] == paint_where(
        px,
        c,
        s2,
    )[i] by {
        lemma_on_screen(i);
    }
    assert(paint_where(px, c, s1) =~= paint_where(px, c, s2));
}

/// Every byte of the buffer belongs to an on-screen pixel.
pub proof fn lemma_on_screen(i: int)
    requires
        0 <= i < WIDTH * HEIGHT * 4,
    ensures
        0 <= (i / 4) % (WIDTH as int) < WIDTH,
        0 <= (i / 4) / (WIDTH as int) < HEIGHT,
{
    let p = i / 4;
    assert(p < WIDTH * HEIGHT);
    vstd::arithmetic::div_mod::lemma_fundamental_div_mod(p, WIDTH as int);
    assert(p / (WIDTH as int) < HEIGHT) by (nonlinear_arith)
        requires
            p == WIDTH * (p / (WIDTH as int)) + p % (WIDTH as int),
            0 <= p % (WIDTH as int),
            p < WIDTH * HEIGHT,
    ;
}

/// Painting one more, not yet painted, pixel on top of a painted set paints
/// the set with that pixel added.
pub proof fn lemma_paint_extend(
    px: Seq<u8>,
    c: Color,
    sel: spec_fn(int, int) -> bool,
    sel2: spec_fn(int, int) -> bool,
    x: int,
    y: int,
)
    requires
        px.len() == WIDTH * HEIGHT * 4,
        !(0 <= x < WIDTH && 0 <= y < HEIGHT && sel(x, y)),
        forall|a: int, b: int|
            #![trigger sel2(a, b)]
            0 <= a < WIDTH && 0 <= b < HEIGHT ==> sel2(a, b) == (sel(a, b) || (a == x && b == y)),
    ensures
        paint_where(paint_where(px, c, sel), c, at_pixel(x, y)) == paint_where(px, c, sel2),
{
    let lhs = paint_where(paint_where(px, c, sel), c, at_pixel(x, y));
    let rhs = paint_where(px, c, sel2);
    assert forall|i: int| 0 <= i < px.len() implies lhs[i] == rhs[i] by {
        lemma_on_screen(i);
    }
    assert(lhs =~= rhs);
}

proof fn lemma_blend_range(src: u8, dst: u8, a: u8)
    ensures
        src as nat * a as nat + dst as nat * (255 - a) as nat <= 255 * 255,
        (src as nat * a as nat + dst as nat * (255 - a) as nat) / 255 <= 255,
{
    assert(src as nat * a as nat + dst as nat * (255 - a) as nat <= 255 * 255) by (nonlinear_arith)
        requires
            src <= 255,
            dst <= 255,
            a <= 255,
    ;
}

proof fn lemma_other_pixel(x: int, y: int, j: int)
    requires
        0 <= x < WIDTH,
        0 <= y < HEIGHT,
        0 <= j,
        !((y * WIDTH + x) * 4 <= j < (y * WIDTH + x) * 4 + 4),
    ensures
        !((j / 4) % (WIDTH as int) == x && (j / 4) / (WIDTH as int) == y),
{
    let p = j / 4;
    vstd::arithmetic::div_mod::lemma_fundamental_div_mod(j, 4);
    vstd::arithmetic::div_mod::lemma_fundamental_div_mod(p, WIDTH as int);
    if p % (WIDTH as int) == x && p / (WIDTH as int) == y {
        assert(p == y * WIDTH + x);
    }
}

/// Byte `k` of pixel (x, y) of the buffer.
pub open spec fn byte_at(px: Seq<u8>, x: int, y: int, k: int) -> u8 {
    px[(y * WIDTH + x) * 4 + k]
}

/// A pixel as 0x00RRGGBB.
pub open spec fn xrgb_of(px: Seq<u8>, x: int, y: int) -> u32 {
    (byte_at(px, x, y, 0) * 65536 + byte_at(px, x, y, 1) * 256 + byte_at(px, x, y, 2)) as u32
}

/// The integer scale that fits the frame into a `pw`×`ph` window (at least 1).
pub open spec fn fit_scale(pw: int, ph: int) -> int {
    let s = min_of(pw / (WIDTH as int), ph / (HEIGHT as int));
    if s >= 1 {
        s
    } else {
        1
    }
}

/// Window pixel (dx, dy) of the frame scaled up by `fit_scale`, centred,
/// with black borders; what does not fit is cut off.
pub open spec fn window_pixel(px: Seq<u8>, pw: int, ph: int, dx: int, dy: int) -> u32 {
    let scale = fit_scale(pw, ph);
    let ow = WIDTH * scale;
    let oh = HEIGHT * scale;
    let x0 = max_of(pw - ow, 0) / 2;
    let y0 = max_of(ph - oh, 0) / 2;
    if y0 <= dy < y0 + min_of(oh, ph) && x0 <= dx < x0 + min_of(ow, pw) {
        xrgb_of(px, (dx - x0) / scale, (dy - y0) / scale)
    } else {
        0
    }
}

/// Device row `y` of a frame shown upside down or not: BGRX bytes.
pub open spec fn device_row_of(px: Seq<u8>, y: int, rotate: bool) -> Seq<u8> {
    Seq::new(
        (WIDTH * 4) as nat,
        |i: int|
            {
                let x = i / 4;
                let (sx, sy) = if rotate {
                    (WIDTH - 1 - x, HEIGHT - 1 - y)
                } else {
                    (x, y)
                };
                let k = i % 4;
                if k == 0 {
                    byte_at(px, sx, sy, 2)
                } else if k == 1 {
                    byte_at(px, sx, sy, 1)
                } else if k == 2 {
                    byte_at(px, sx, sy, 0)
                } else {
                    255u8
                }
            },
    )
}

proof fn lemma_xrgb(r: u8, g: u8, b: u8)
    ensures
        ((r as u32) << 16) | ((g as u32) << 8) | (b as u32) == (r * 65536 + g * 256 + b) as u32,
        r * 65536 + g * 256 + b <= u32::MAX,
{
    assert(((r as u32) << 16) | ((g as u32) << 8) | (b as u32) == (r as u32) * 65536 + (g as u32)
        * 256 + (b as u32)) by (bit_vector);
}

proof fn lemma_scaled_index(x: int, scale: int)
    requires
        scale >= 1,
        0 <= x < WIDTH * scale,
    ensures
        0 <= x / scale < WIDTH,
{
    assert(0 <= x / scale < WIDTH) by (nonlinear_arith)
        requires
            scale >= 1,
            0 <= x < WIDTH * scale,
    ;
}

proof fn lemma_scaled_row(y: int, scale: int)
    requires
        scale >= 1,
        0 <= y < HEIGHT * scale,
    ensures
        0 <= y / scale < HEIGHT,
{
    assert(0 <= y / scale < HEIGHT) by (nonlinear_arith)
        requires
            scale >= 1,
            0 <= y < HEIGHT * scale,
    ;
}

impl Frame {
    /// Row `dy` of a `pw`×`ph` window showing the frame: scaled by a whole
    /// factor, centred, black around it; one 0x00RRGGBB word per pixel.
    pub fn window_row(&self, pw: usize, ph: usize, dy: usize) -> (row: Vec<u32>)
        requires
            self.wf(),
            dy < ph,
        ensures
            row@.len() == pw,
            forall|dx: int| 0 <= dx < pw ==> #[trigger] row@[dx] == window_pixel(
                self.px@,
                pw as int,
                ph as int,
                dx,
                dy as int,
            ),
    {
        let a = pw / WIDTH;
        let b = ph / HEIGHT;
        let m = if a <= b {
            a
        } else {
            b
        };
        let scale = if m >= 1 {
            m
        } else {
            1
        };
        assert(WIDTH * scale <= pw || scale == 1) by (nonlinear_arith)
            requires
                scale == 1 || (scale <= pw / WIDTH && scale >= 1),
        ;
        assert(HEIGHT * scale <= ph || scale == 1) by (nonlinear_arith)
            requires
                scale == 1 || (scale <= ph / HEIGHT && scale >= 1),
        ;
        let ow = WIDTH * scale;
        let oh = HEIGHT * scale;
        let x0 = if pw > ow {
            (pw - ow) / 2
        } else {
            0
        };
        let y0 = if ph > oh {
            (ph - oh) / 2
        } else {
            0
        };
        let xs = if ow < pw {
            ow
        } else {
            pw
        };
        let ys = if oh < ph {
            oh
        } else {
            ph
        };
        let shown = y0 <= dy && dy - y0 < ys;
        let mut row: Vec<u32> = Vec::new();
        let mut dx: usize = 0;
        while dx < pw
            invariant
                self.wf(),
                dx <= pw,
                row@.len() == dx,
                scale as int == fit_scale(pw as int, ph as int),
                ow == WIDTH * scale,
                oh == HEIGHT * scale,
                x0 == max_of(pw - ow, 0) / 2,
                y0 == max_of(ph - oh, 0) / 2,
                xs == min_of(ow as int, pw as int),
                ys == min_of(oh as int, ph as int),
                shown == (y0 <= dy < y0 + ys),
                dy < ph,
                forall|k: int| 0 <= k < dx ==> #[trigger] row@[k] == window_pixel(
                    self.px@,
                    pw as int,
                    ph as int,
                    k,
                    dy as int,
                ),
            decreases pw - dx,
        {
            let v = if shown && x0 <= dx && dx - x0 < xs {
                let sx = (dx - x0) / scale;
                let sy = (dy - y0) / scale;
                proof {
                    lemma_scaled_index((dx - x0) as int, scale as int);
                    lemma_scaled_row((dy - y0) as int, scale as int);
                    lemma_pixel_index(sx as int, sy as int, 0);
                    lemma_pixel_index(sx as int, sy as int, 1);
                    lemma_pixel_index(sx as int, sy as int, 2);
                }
                let i = (sy * WIDTH + sx) * 4;
                let r = self.px[i];
                let g = self.px[i + 1];
                let bl = self.px[i + 2];
                proof {
                    lemma_xrgb(r, g, bl);
                }
                ((r as u32) << 16) | ((g as u32) << 8) | (bl as u32)
            } else {
                0
            };
            row.push(v);
            dx = dx + 1;
        }
        row
    }

    /// Row `y` of the handheld's framebuffer: BGRX bytes, read from the
    /// frame turned 180° when `rotate` is set.
    pub fn device_row(&self, y: usize, rotate: bool) -> (row: Vec<u8>)
        requires
            self.wf(),
            y < HEIGHT,
        ensures
            row@ == device_row_of(self.px@, y as int, rotate),
    {
        let mut row: Vec<u8> = Vec::new();
        let mut x: usize = 0;
        while x < WIDTH
            invariant
                self.wf(),
                y < HEIGHT,
                x <= WIDTH,
                row@ == device_row_of(self.px@, y as int, rotate).take(4 * x as int),
            decreases WIDTH - x,
        {
            let (sx, sy) = if rotate {
                (WIDTH - 1 - x, HEIGHT - 1 - y)
            } else {
                (x, y)
            };
            proof {
                lemma_pixel_index(sx as int, sy as int, 0);
                lemma_pixel_index(sx as int, sy as int, 1);
                lemma_pixel_index(sx as int, sy as int, 2);
            }
            let i = (sy * WIDTH + sx) * 4;
            row.push(self.px[i + 2]);
            row.push(self.px[i + 1]);
            row.push(self.px[i]);
            row.push(255);
            proof {
                let want = device_row_of(self.px@, y as int, rotate);
                assert forall|j: int| 0 <= j < 4 * x + 4 implies row@[j] == want[j] by {
                    if j >= 4 * x {
                        assert(j / 4 == x);
                    }
                }
                assert(row@ =~= want.take(4 * x + 4));
            }
            x = x + 1;
        }
        assert(row@ =~= device_row_of(self.px@, y as int, rotate));
        row
    }
}

// ------------------------------------------------------------ launcher icon --

/// Side of the square launcher icon, in pixels.
pub const ICON: usize = 128;

/// Byte `i` of the launcher icon made from a title-screen frame `px`: the
/// 256×64 band around the wordmark (from x 192, y 52), halved by averaging
/// each 2×2 block, centred vertically on the background colour.
pub open spec fn icon_byte_of(px: Seq<u8>, i: int) -> u8 {
    let o = i / 4;
    let c = i % 4;
    let ox = o % 128;
    let oy = o / 128;
    if c == 3 {
        255u8
    } else if 48 <= oy < 80 {
        let sx = 192 + 2 * ox;
        let sy = 52 + 2 * (oy - 48);
        ((px[(sy * 640 + sx) * 4 + c] + px[(sy * 640 + sx + 1) * 4 + c] + px[((sy + 1) * 640
            + sx) * 4 + c] + px[((sy + 1) * 640 + sx + 1) * 4 + c]) / 4) as u8
    } else if c == 0 {
        0x0Eu8
    } else if c == 1 {
        0x11u8
    } else {
        0x16u8
    }
}

proof fn lemma_icon_source(ox: int, oy: int, c: int)
    requires
        0 <= ox < 128,
        48 <= oy < 80,
        0 <= c < 3,
    ensures
        ({
            let sx = 192 + 2 * ox;
            let sy = 52 + 2 * (oy - 48);
            &&& 0 <= (sy * 640 + sx) * 4 + c
            &&& ((sy + 1) * 640 + sx + 1) * 4 + c < WIDTH * HEIGHT * 4
            &&& (sy * 640 + sx + 1) * 4 + c < WIDTH * HEIGHT * 4
            &&& ((sy + 1) * 640 + sx) * 4 + c < WIDTH * HEIGHT * 4
        }),
{
    let sx = 192 + 2 * ox;
    let sy = 52 + 2 * (oy - 48);
    assert(0 <= sx <= 446 && 52 <= sy <= 114);
    assert(((sy + 1) * 640 + sx + 1) * 4 + c < WIDTH * HEIGHT * 4) by (nonlinear_arith)
        requires
            0 <= sx <= 446,
            52 <= sy <= 114,
            0 <= c < 3,
    ;
    assert(0 <= (sy * 640 + sx) * 4 + c) by (nonlinear_arith)
        requires
            0 <= sx,
            0 <= sy,
            0 <= c,
    ;
}

impl Frame {
    /// The 128×128 RGBA launcher icon cut from this frame, which shows the
    /// title screen.
    pub fn icon(&self) -> (v: Vec<u8>)
        requires
            self.wf(),
        ensures
            v@.len() == ICON * ICON * 4,
            forall|i: int| 0 <= i < v@.len() ==> #[trigger] v@[i] == icon_byte_of(self.px@, i),
    {
        let mut v: Vec<u8> = Vec::new();
        let mut i: usize = 0;
        while i < ICON * ICON * 4
            invariant
                self.wf(),
                i <= ICON * ICON * 4,
                v@.len() == i,
                forall|j: int| 0 <= j < i ==> #[trigger] v@[j] == icon_byte_of(self.px@, j),
            decreases ICON * ICON * 4 - i,
        {
            let o = i / 4;
            let c = i % 4;
            let ox = o % 128;
            let oy = o / 128;
            let b: u8 = if c == 3 {
                255
            } else if 48 <= oy && oy < 80 {
                let sx = 192 + 2 * ox;
                let sy = 52 + 2 * (oy - 48);
                proof {
                    lemma_icon_source(ox as int, oy as int, c as int);
                }
                let sum = self.px[(sy * 640 + sx) * 4 + c] as u32 + self.px[(sy * 640 + sx + 1) * 4
                    + c] as u32 + self.px[((sy + 1) * 640 + sx) * 4 + c] as u32 + self.px[((sy + 1)
                    * 640 + sx + 1) * 4 + c] as u32;
                (sum / 4) as u8
            } else if c == 0 {
                0x0E
            } else if c == 1 {
                0x11
            } else {
                0x16
            };
            v.push(b);
            i = i + 1;
        }
        v
    }
}


/// A blend channel lies between its two ends, and the ends of the blend are
/// the two channels themselves.
pub proof fn lemma_lerp_between(a: u8, b: u8, t: u8)
    ensures
        a <= b ==> a <= lerp_of(a, b, t) <= b,
        b <= a ==> b <= lerp_of(a, b, t) <= a,
        lerp_of(a, b, 0) == a,
        lerp_of(a, b, 255) == b,
{
    let d = b - a;
    if d >= 0 {
        assert(0 <= (d * t) / 255 <= d) by (nonlinear_arith)
            requires
                0 <= d <= 255,
                0 <= t <= 255,
        ;
    } else {
        assert(0 <= ((-d) * t) / 255 <= -d) by (nonlinear_arith)
            requires
                0 < -d <= 255,
                0 <= t <= 255,
        ;
        assert(-(d * t) == (-d) * t) by (nonlinear_arith);
    }
    assert(d * 0 == 0);
    assert((d * 255) / 255 == d) by (nonlinear_arith)
        requires
            -255 <= d <= 255,
    ;
    assert(((-d) * 255) / 255 == -d) by (nonlinear_arith)
        requires
            -255 <= d <= 255,
    ;
    assert(-(d * 255) == (-d) * 255) by (nonlinear_arith);
}

/// A pixel put on screen changes only its own four bytes: they take the
/// colour blended over what was there, the pixel ending opaque; a pixel off
/// screen, or a transparent colour, changes nothing.
pub proof fn lemma_put_one_pixel(px: Seq<u8>, c: Color, x: int, y: int, i: int)
    requires
        px.len() == WIDTH * HEIGHT * 4,
        0 <= i < px.len(),
    ensures
        (0 <= x < WIDTH && 0 <= y < HEIGHT && c.a != 0 && (y * WIDTH + x) * 4 <= i < (y * WIDTH
            + x) * 4 + 4) ==> paint_where(px, c, at_pixel(x, y))[i] == paint_byte(
            px[i],
            i - (y * WIDTH + x) * 4,
            c,
        ),
        !(0 <= x < WIDTH && 0 <= y < HEIGHT && c.a != 0 && (y * WIDTH + x) * 4 <= i < (y * WIDTH
            + x) * 4 + 4) ==> paint_where(px, c, at_pixel(x, y))[i] == px[i],
{
    let p = i / 4;
    let q = y * WIDTH + x;
    if 0 <= x < WIDTH && 0 <= y < HEIGHT {
        if q * 4 <= i < q * 4 + 4 {
            lemma_pixel_index(x, y, i - q * 4);
        } else {
            vstd::arithmetic::div_mod::lemma_fundamental_div_mod(i, 4);
            if p == q {
                assert(false);
            }
            if p % (WIDTH as int) == x && p / (WIDTH as int) == y {
                vstd::arithmetic::div_mod::lemma_fundamental_div_mod(p, WIDTH as int);
                assert(p == q);
            }
        }
    }
}

} // verus!
