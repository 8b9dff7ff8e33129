use vstd::prelude::*;
use crate::color::{Color, white};
use crate::fixed::{isqrt, isqrt_spec};

verus! {

/// Largest width, and height, of a framebuffer in pixels.
pub const MAX_SCREEN_DIM: u32 = 8192;

/// Darkness of a vignette is given in thousandths; this is full darkness.
pub const DARKNESS_FULL: u32 = 1000;

/// Text to draw over the next presented frame.
pub struct TextOverlay {
    pub text: String,
    pub x: i32,
    pub y: i32,
    pub font_size: i32,
    pub color: Color,
}

/// A circular darkening over the next presented frame: dark outside `max_radius`.
#[derive(Clone, Copy, PartialEq, Eq, Structural, Debug)]
pub struct Vignette {
    pub center_x: i32,
    pub center_y: i32,
    pub max_radius: u32,
    /// In thousandths, at most `DARKNESS_FULL`.
    pub darkness: u32,
}

/// The pixel sink: a grid of colours written one pixel at a time with the current
/// colour, plus what is to be drawn over it when it is presented.
pub struct Framebuffer {
    pub width: u32,
    pub height: u32,
    pub background_color: Color,
    pub current_color: Color,
    /// `pixel_data[y * width + x]` is the pixel at `(x, y)`.
    pub pixel_data: Vec<Color>,
    pub overlays: Vec<TextOverlay>,
    pub circle_overlays: Vec<Vignette>,
    /// Lives left and lives in all.
    pub health_to_draw: Option<(i32, i32)>,
}

pub open spec fn pixel_index(w: int, x: int, y: int) -> int {
    y * w + x
}

/// A pixel to plot, and its colour.
#[derive(Clone, Copy, PartialEq, Eq, Structural, Debug)]
pub struct Plot {
    pub x: i64,
    pub y: i64,
    pub color: Color,
}

/// The pixels of a `w`-wide buffer after plotting `plots` in order.
pub open spec fn paint(px: Seq<Color>, w: int, plots: Seq<Plot>) -> Seq<Color>
    decreases plots.len(),
{
    if plots.len() == 0 {
        px
    } else {
        let last = plots.last();
        paint(px, w, plots.drop_last()).update(pixel_index(w, last.x as int, last.y as int), last.color)
    }
}

/// Distinct pixels of a `w`-wide buffer sit at distinct indices, inside `w * h`.
pub proof fn lemma_pixel_index(w: int, h: int, x1: int, y1: int, x2: int, y2: int)
    requires
        0 <= x1 < w,
        0 <= x2 < w,
        0 <= y1 < h,
        0 <= y2 < h,
    ensures
        0 <= pixel_index(w, x1, y1) < w * h,
        (x1 != x2 || y1 != y2) ==> pixel_index(w, x1, y1) != pixel_index(w, x2, y2),
{
    assert(0 <= y1 * w + x1 < w * h) by (nonlinear_arith)
        requires
            0 <= x1 < w,
            0 <= y1 < h,
    {
    }
    if y1 < y2 {
        assert(y1 * w + x1 < y2 * w + x2) by (nonlinear_arith)
            requires
                0 <= x1 < w,
                0 <= x2,
                y1 < y2,
        {
        }
    } else if y2 < y1 {
        assert(y2 * w + x2 < y1 * w + x1) by (nonlinear_arith)
            requires
                0 <= x2 < w,
                0 <= x1,
                y2 < y1,
        {
        }
    }
}

/// The index of `(x, y)` in a `w` by `h` buffer.
pub fn pixel_offset(w: u32, h: u32, x: u32, y: u32) -> (i: usize)
    requires
        w <= MAX_SCREEN_DIM,
        h <= MAX_SCREEN_DIM,
        x < w,
        y < h,
    ensures
        i == pixel_index(w as int, x as int, y as int),
        i < w * h,
{
    proof {
        lemma_pixel_index(w as int, h as int, x as int, y as int, 0, 0);
        assert(y * w <= 8192 * 8192) by (nonlinear_arith)
            requires
                y < h <= 8192,
                w <= 8192,
        {
        }
    }
    (y as usize) * (w as usize) + (x as usize)
}

impl Framebuffer {
    pub open spec fn wf(&self) -> bool {
        &&& 1 <= self.width <= MAX_SCREEN_DIM
        &&& 1 <= self.height <= MAX_SCREEN_DIM
        &&& self.pixel_data@.len() == self.width * self.height
    }

    /// The colour at `(x, y)`.
    pub open spec fn pixel(&self, x: int, y: int) -> Color {
        self.pixel_data@[pixel_index(self.width as int, x, y)]
    }

    pub open spec fn in_bounds(&self, x: int, y: int) -> bool {
        0 <= x < self.width && 0 <= y < self.height
    }

    /// A `width` by `height` buffer filled with the background colour; drawing starts white.
    pub fn new(width: u32, height: u32, background_color: Color) -> (r: Framebuffer)
        requires
            1 <= width <= MAX_SCREEN_DIM,
            1 <= height <= MAX_SCREEN_DIM,
        ensures
            r.wf(),
            r.width == width,
            r.height == height,
            r.background_color == background_color,
            r.current_color == white(),
            forall|i: int| 0 <= i < r.pixel_data@.len() ==> #[trigger] r.pixel_data@[i] == background_color,
            r.overlays@.len() == 0,
            r.circle_overlays@.len() == 0,
            r.health_to_draw is None,
    {
        proof {
            assert(width * height <= 8192 * 8192) by (nonlinear_arith)
                requires
                    width <= 8192,
                    height <= 8192,
            {
            }
        }
        let size = width as usize * height as usize;
        let mut pixel_data: Vec<Color> = Vec::new();
        let mut i: usize = 0;
        while i < size
            invariant
                0 <= i <= size,
                pixel_data@.len() == i,
                forall|j: int| 0 <= j < i ==> #[trigger] pixel_data@[j] == background_color,
            decreases size - i,
        {
            pixel_data.push(background_color);
            i = i + 1;
        }
        Framebuffer {
            width,
            height,
            background_color,
            current_color: Color::white(),
            pixel_data,
            overlays: Vec::new(),
            circle_overlays: Vec::new(),
            health_to_draw: None,
        }
    }

    /// Fills every pixel with the background colour.
    pub fn clear(&mut self)
        requires
            old(self).wf(),
        ensures
            final(self).wf(),
            final(self).width == old(self).width,
            final(self).height == old(self).height,
            final(self).background_color == old(self).background_color,
            final(self).current_color == old(self).current_color,
            forall|i: int|
                0 <= i < final(self).pixel_data@.len() ==> #[trigger] final(self).pixel_data@[i]
                    == old(self).background_color,
            final(self).overlays@ == old(self).overlays@,
            final(self).circle_overlays@ == old(self).circle_overlays@,
            final(self).health_to_draw == old(self).health_to_draw,
    {
        let bg = self.background_color;
        let mut i: usize = 0;
        while i < self.pixel_data.len()
            invariant
                0 <= i <= self.pixel_data@.len(),
                self.pixel_data@.len() == old(self).pixel_data@.len(),
                self.width == old(self).width,
                self.height == old(self).height,
                self.background_color == bg,
                bg == old(self).background_color,
                self.current_color == old(self).current_color,
                self.overlays@ == old(self).overlays@,
                self.circle_overlays@ == old(self).circle_overlays@,
                self.health_to_draw == old(self).health_to_draw,
                forall|j: int| 0 <= j < i ==> #[trigger] self.pixel_data@[j] == bg,
            decreases self.pixel_data.len() - i,
        {
            self.pixel_data.set(i, bg);
            i = i + 1;
        }
    }

    /// Plots the current colour at `(x, y)`; points outside the buffer are ignored.
    pub fn set_pixel(&mut self, x: i32, y: i32)
        requires
            old(self).wf(),
        ensures
            final(self).wf(),
            final(self).width == old(self).width,
            final(self).height == old(self).height,
            final(self).background_color == old(self).background_color,
            final(self).current_color == old(self).current_color,
            final(self).overlays@ == old(self).overlays@,
            final(self).circle_overlays@ == old(self).circle_overlays@,
            final(self).health_to_draw == old(self).health_to_draw,
            final(self).pixel_data@ == if old(self).in_bounds(x as int, y as int) {
                old(self).pixel_data@.update(
                    pixel_index(old(self).width as int, x as int, y as int),
                    old(self).current_color,
                )
            } else {
                old(self).pixel_data@
            },
    {
        if x >= 0 && (x as u32) < self.width && y >= 0 && (y as u32) < self.height {
            let index = pixel_offset(self.width, self.height, x as u32, y as u32);
            self.pixel_data.set(index, self.current_color);
        }
    }

    /// Sets the background colour and clears to it.
    pub fn set_background_color(&mut self, color: Color)
        requires
            old(self).wf(),
        ensures
            final(self).wf(),
            final(self).width == old(self).width,
            final(self).height == old(self).height,
            final(self).background_color == color,
            final(self).current_color == old(self).current_color,
            forall|i: int|
                0 <= i < final(self).pixel_data@.len() ==> #[trigger] final(self).pixel_data@[i]
                    == color,
    {
        self.background_color = color;
        self.clear();
    }

    pub fn set_current_color(&mut self, color: Color)
        ensures
            final(self).current_color == color,
            final(self).width == old(self).width,
            final(self).height == old(self).height,
            final(self).background_color == old(self).background_color,
            final(self).pixel_data@ == old(self).pixel_data@,
            final(self).overlays@ == old(self).overlays@,
            final(self).circle_overlays@ == old(self).circle_overlays@,
            final(self).health_to_draw == old(self).health_to_draw,
    {
        self.current_color = color;
    }

    /// The colour at `(x, y)`, or `None` outside the buffer.
    pub fn get_pixel_color(&self, x: i32, y: i32) -> (r: Option<Color>)
        requires
            self.wf(),
        ensures
            r is Some <==> self.in_bounds(x as int, y as int),
            r matches Some(c) ==> c == self.pixel(x as int, y as int),
    {
        if x >= 0 && (x as u32) < self.width && y >= 0 && (y as u32) < self.height {
            let index = pixel_offset(self.width, self.height, x as u32, y as u32);
            Some(self.pixel_data[index])
        } else {
            None
        }
    }

    /// Queues text to draw over the next presented frame.
    pub fn draw_text(&mut self, text: &str, x: i32, y: i32, font_size: i32, color: Color)
        ensures
            final(self).overlays@.len() == old(self).overlays@.len() + 1,
            forall|i: int| 0 <= i < old(self).overlays@.len() ==> #[trigger] final(self).overlays@[i] == old(self).overlays@[i],
            final(self).overlays@.last().text@ == text@,
            final(self).overlays@.last().x == x,
            final(self).overlays@.last().y == y,
            final(self).overlays@.last().font_size == font_size,
            final(self).overlays@.last().color == color,
            final(self).pixel_data@ == old(self).pixel_data@,
            final(self).width == old(self).width,
            final(self).height == old(self).height,
            final(self).circle_overlays@ == old(self).circle_overlays@,
    {
        let t = text.to_string();
        proof {
            vstd::string::to_string_from_display_ensures_for_str(text, t);
        }
        self.overlays.push(TextOverlay { text: t, x, y, font_size, color });
    }

    /// Queues a vignette centred at `(center_x, center_y)`; darkness is clamped to full.
    pub fn draw_vignette(&mut self, center_x: i32, center_y: i32, max_radius: u32, darkness: u32)
        ensures
            final(self).circle_overlays@ == old(self).circle_overlays@.push(
                Vignette {
                    center_x,
                    center_y,
                    max_radius,
                    darkness: if darkness > DARKNESS_FULL { DARKNESS_FULL } else { darkness },
                },
            ),
            final(self).pixel_data@ == old(self).pixel_data@,
            final(self).width == old(self).width,
            final(self).height == old(self).height,
            final(self).overlays@ == old(self).overlays@,
    {
        let d = if darkness > DARKNESS_FULL {
            DARKNESS_FULL
        } else {
            darkness
        };
        self.circle_overlays.push(Vignette { center_x, center_y, max_radius, darkness: d });
    }

    /// Queues the health bars: `current` lives left out of `max`.
    pub fn queue_health(&mut self, current: i32, max: i32)
        ensures
            final(self).health_to_draw == Some((current, max)),
            final(self).pixel_data@ == old(self).pixel_data@,
            final(self).width == old(self).width,
            final(self).height == old(self).height,
            final(self).overlays@ == old(self).overlays@,
            final(self).circle_overlays@ == old(self).circle_overlays@,
    {
        self.health_to_draw = Some((current, max));
    }

    /// Plots each point in its colour, in order.
    pub fn draw_plots(&mut self, plots: &Vec<Plot>)
        requires
            old(self).wf(),
            forall|i: int|
                0 <= i < plots@.len() ==> old(self).in_bounds((#[trigger] plots@[i]).x as int, plots@[i].y as int),
        ensures
            final(self).wf(),
            final(self).width == old(self).width,
            final(self).height == old(self).height,
            final(self).background_color == old(self).background_color,
            final(self).overlays@ == old(self).overlays@,
            final(self).circle_overlays@ == old(self).circle_overlays@,
            final(self).health_to_draw == old(self).health_to_draw,
            final(self).pixel_data@ == paint(old(self).pixel_data@, old(self).width as int, plots@),
    {
        let mut i: usize = 0;
        while i < plots.len()
            invariant
                self.wf(),
                0 <= i <= plots@.len(),
                self.width == old(self).width,
                self.height == old(self).height,
                self.background_color == old(self).background_color,
                self.overlays@ == old(self).overlays@,
                self.circle_overlays@ == old(self).circle_overlays@,
                self.health_to_draw == old(self).health_to_draw,
                forall|j: int|
                    0 <= j < plots@.len() ==> old(self).in_bounds((#[trigger] plots@[j]).x as int, plots@[j].y as int),
                self.pixel_data@ == paint(old(self).pixel_data@, old(self).width as int, plots@.subrange(0, i as int)),
            decreases plots.len() - i,
        {
            let p = plots[i];
            self.set_current_color(p.color);
            self.set_pixel(p.x as i32, p.y as i32);
            proof {
                let next = plots@.subrange(0, i + 1);
                assert(next.drop_last() =~= plots@.subrange(0, i as int));
                assert(next.last() == p);
            }
            i = i + 1;
        }
        proof {
            assert(plots@.subrange(0, plots@.len() as int) =~= plots@);
        }
    }

    /// Plots the current colour over the rectangle `[x0, x1) x [y0, y1)`, clipped to the
    /// buffer.
    pub fn fill_rect(&mut self, x0: i64, y0: i64, x1: i64, y1: i64)
        requires
            old(self).wf(),
        ensures
            final(self).wf(),
            final(self).width == old(self).width,
            final(self).height == old(self).height,
            final(self).background_color == old(self).background_color,
            final(self).current_color == old(self).current_color,
            final(self).overlays@ == old(self).overlays@,
            final(self).circle_overlays@ == old(self).circle_overlays@,
            final(self).health_to_draw == old(self).health_to_draw,
            forall|x: int, y: int|
                old(self).in_bounds(x, y) ==> #[trigger] final(self).pixel(x, y) == if x0 <= x < x1 && y0
                    <= y < y1 {
                    old(self).current_color
                } else {
                    old(self).pixel(x, y)
                },
    {
        let w = self.width as i64;
        let h = self.height as i64;
        let cx0 = if x0 < 0 {
            0
        } else {
            x0
        };
        let cy0 = if y0 < 0 {
            0
        } else {
            y0
        };
        let cx1 = if x1 > w {
            w
        } else {
            x1
        };
        let cy1 = if y1 > h {
            h
        } else {
            y1
        };
        let mut x = cx0;
        while x < cx1
            invariant
                self.wf(),
                w == self.width,
                h == self.height,
                0 <= cx0 <= x,
                cx1 <= w,
                cx0 == if x0 < 0 { 0 } else { x0 },
                cy0 == if y0 < 0 { 0 } else { y0 },
                cx1 == if x1 > w { w } else { x1 },
                cy1 == if y1 > h { h } else { y1 },
                self.width == old(self).width,
                self.height == old(self).height,
                self.background_color == old(self).background_color,
                self.current_color == old(self).current_color,
                self.overlays@ == old(self).overlays@,
                self.circle_overlays@ == old(self).circle_overlays@,
                self.health_to_draw == old(self).health_to_draw,
                forall|xx: int, yy: int|
                    old(self).in_bounds(xx, yy) ==> #[trigger] self.pixel(xx, yy) == if x0 <= xx < x1 && y0
                        <= yy < y1 && xx < x {
                        old(self).current_color
                    } else {
                        old(self).pixel(xx, yy)
                    },
            decreases cx1 - x,
        {
            let mut y = cy0;
            while y < cy1
                invariant
                    self.wf(),
                    w == self.width,
                    h == self.height,
                    0 <= cx0 <= x < cx1 <= w,
                    0 <= cy0 <= y,
                    cy1 <= h,
                    cx0 == if x0 < 0 { 0 } else { x0 },
                    cy0 == if y0 < 0 { 0 } else { y0 },
                    cx1 == if x1 > w { w } else { x1 },
                    cy1 == if y1 > h { h } else { y1 },
                    self.width == old(self).width,
                    self.height == old(self).height,
                    self.background_color == old(self).background_color,
                    self.current_color == old(self).current_color,
                    self.overlays@ == old(self).overlays@,
                    self.circle_overlays@ == old(self).circle_overlays@,
                    self.health_to_draw == old(self).health_to_draw,
                    forall|xx: int, yy: int|
                        old(self).in_bounds(xx, yy) ==> #[trigger] self.pixel(xx, yy) == if x0 <= xx < x1 && y0
                            <= yy < y1 && (xx < x || (xx == x && yy < y)) {
                            old(self).current_color
                        } else {
                            old(self).pixel(xx, yy)
                        },
                decreases cy1 - y,
            {
                let ghost before = *self;
                self.set_pixel(x as i32, y as i32);
                proof {
                    let wi = w as int;
                    lemma_pixel_index(wi, h as int, x as int, y as int, 0, 0);
                    assert forall|xx: int, yy: int|
                        self.in_bounds(xx, yy) && (xx != x || yy != y) implies #[trigger] self.pixel(xx, yy)
                        == before.pixel(xx, yy) by {
                        lemma_pixel_index(wi, h as int, xx, yy, x as int, y as int);
                    }
                }
                y = y + 1;
            }
            x = x + 1;
        }
    }

    /// Drops everything queued over the frame, once it has been presented.
    pub fn clear_overlays(&mut self)
        ensures
            final(self).overlays@.len() == 0,
            final(self).circle_overlays@.len() == 0,
            final(self).health_to_draw is None,
            final(self).pixel_data@ == old(self).pixel_data@,
            final(self).width == old(self).width,
            final(self).height == old(self).height,
            final(self).background_color == old(self).background_color,
            final(self).current_color == old(self).current_color,
    {
        self.overlays.clear();
        self.circle_overlays.clear();
        self.health_to_draw = None;
    }
}

/// Side, in texels, of the square vignette mask.
pub const MASK_SIZE: u32 = 512;

/// Alpha of the vignette mask at texel `(x, y)` of a `size`-square mask: the distance
/// of the texel's centre from the mask's centre, over half the side, times 255, rounded
/// and capped at 255. Clear in the middle, opaque at the inscribed circle and beyond.
pub open spec fn mask_alpha_spec(x: int, y: int, size: int) -> int {
    let dx = 2 * x + 1 - size;
    let dy = 2 * y + 1 - size;
    let d = isqrt_spec(dx * dx + dy * dy);
    let a = (2 * 255 * d + size) / (2 * size);
    if a > 255 {
        255
    } else {
        a
    }
}

/// The vignette mask's alpha at texel `(x, y)`, as `mask_alpha_spec` states.
pub fn mask_alpha(x: u32, y: u32, size: u32) -> (a: u8)
    requires
        x < size <= MAX_SCREEN_DIM,
        y < size,
    ensures
        a == mask_alpha_spec(x as int, y as int, size as int),
{
    let dx = 2 * (x as i64) + 1 - size as i64;
    let dy = 2 * (y as i64) + 1 - size as i64;
    proof {
        assert(0 <= dx * dx <= 0x1_0000_0000 && 0 <= dy * dy <= 0x1_0000_0000) by (nonlinear_arith)
            requires
                -0x10000 <= dx <= 0x10000,
                -0x10000 <= dy <= 0x10000,
        {
        }
    }
    let sq = (dx * dx + dy * dy) as u64;
    let d0 = isqrt(sq);
    let d = d0 as i64;
    proof {
        assert(sq == dx * dx + dy * dy);
        assert(d0 * d0 <= sq);
        assert(d == d0);
        assert(d <= 0x20000) by (nonlinear_arith)
            requires
                d * d <= dx * dx + dy * dy,
                dx * dx + dy * dy <= 0x2_0000_0000,
                d >= 0,
        {
        }
        vstd::arithmetic::div_mod::lemma_div_pos_is_pos(2 * 255 * d + size, 2 * size as int);
    }
    let t: i64 = 510 * d;
    let a = (t + size as i64) / (2 * size as i64);
    if a > 255 {
        255
    } else {
        a as u8
    }
}

/// The whole vignette mask, row by row: entry `y * size + x` is the alpha at `(x, y)`.
pub fn vignette_mask(size: u32) -> (r: Vec<u8>)
    requires
        size <= MAX_SCREEN_DIM,
    ensures
        r@.len() == size * size,
        forall|x: int, y: int|
            0 <= x < size && 0 <= y < size ==> #[trigger] r@[pixel_index(size as int, x, y)]
                == mask_alpha_spec(x, y, size as int),
{
    let mut out: Vec<u8> = Vec::new();
    let mut y: u32 = 0;
    while y < size
        invariant
            size <= MAX_SCREEN_DIM,
            0 <= y <= size,
            out@.len() == y * size,
            forall|xx: int, yy: int|
                0 <= xx < size && 0 <= yy < y ==> #[trigger] out@[pixel_index(size as int, xx, yy)]
                    == mask_alpha_spec(xx, yy, size as int),
        decreases size - y,
    {
        let mut x: u32 = 0;
        while x < size
            invariant
                size <= MAX_SCREEN_DIM,
                0 <= y < size,
                0 <= x <= size,
                out@.len() == y * size + x,
                forall|xx: int, yy: int|
                    0 <= xx < size && 0 <= yy < y ==> #[trigger] out@[pixel_index(size as int, xx, yy)]
                        == mask_alpha_spec(xx, yy, size as int),
                forall|xx: int| 0 <= xx < x ==> #[trigger] out@[pixel_index(size as int, xx, y as int)]
                    == mask_alpha_spec(xx, y as int, size as int),
            decreases size - x,
        {
            proof {
                assert((y + 1) * size <= size * size) by (nonlinear_arith)
                    requires
                        y < size,
                {
                }
                assert(size * size <= 8192 * 8192) by (nonlinear_arith)
                    requires
                        size <= 8192,
                {
                }
            }
            out.push(mask_alpha(x, y, size));
            proof {
                assert forall|xx: int, yy: int|
                    0 <= xx < size && 0 <= yy < y implies #[trigger] out@[pixel_index(size as int, xx, yy)]
                        == mask_alpha_spec(xx, yy, size as int) by {
                    lemma_pixel_index(size as int, y as int + 1, xx, yy, 0, 0);
                    assert(pixel_index(size as int, xx, yy) < y * size) by (nonlinear_arith)
                        requires
                            0 <= xx < size,
                            0 <= yy < y,
                    {
                    }
                }
                assert(pixel_index(size as int, x as int, y as int) == y * size + x);
            }
            x = x + 1;
        }
        proof {
            assert(y * size + size == (y + 1) * size) by (nonlinear_arith);
        }
        y = y + 1;
    }
    out
}

} // verus!
