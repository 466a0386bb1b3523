use crate::color::{decodes_to, hex_to_rgb, hex_triplet, is_hex_code, rgb_of, rgb_to_hex, MAX_RGB};
use crate::error::WinErr;
use vstd::arithmetic::div_mod::{lemma_fundamental_div_mod, lemma_fundamental_div_mod_converse};
use vstd::prelude::*;
use vstd::string::*;

verus! {

/// What a window container holds, as mathematics: a title, the dimensions,
/// the background colour and the pixels, row after row.
pub struct Canvas {
    pub title: Seq<char>,
    pub width: nat,
    pub height: nat,
    pub background: u32,
    pub pixels: Seq<u32>,
}

/// Whether `(x, y)` lies nearer to `(cx, cy)` than `r`.
pub open spec fn in_circle(x: int, y: int, cx: int, cy: int, r: int) -> bool {
    (x - cx) * (x - cx) + (y - cy) * (y - cy) < r * r
}

/// Samples taken along a shape, as points of the plane.
pub open spec fn as_points(samples: Seq<(i64, i64)>) -> Seq<(int, int)> {
    Seq::new(samples.len(), |k: int| (samples[k].0 as int, samples[k].1 as int))
}

/// Whether `p` is among the first `k` of `points`.
pub open spec fn among_first(points: Seq<(int, int)>, k: nat, p: (int, int)) -> bool
    decreases k,
{
    if k == 0 {
        false
    } else {
        points[k - 1] == p || among_first(points, (k - 1) as nat, p)
    }
}

/// To be among all the points is to be one of them.
pub proof fn lemma_among_all(points: Seq<(int, int)>, k: nat, p: (int, int))
    requires
        k <= points.len(),
    ensures
        among_first(points, k, p) <==> exists|j: int| 0 <= j < k && #[trigger] points[j] == p,
    decreases k,
{
    if k > 0 {
        lemma_among_all(points, (k - 1) as nat, p);
        if among_first(points, k, p) {
            if points[k - 1] == p {
            } else {
                let j = choose|j: int| 0 <= j < k - 1 && #[trigger] points[j] == p;
                assert(0 <= j < k && points[j] == p);
            }
        }
    }
}

impl Canvas {
    /// There is one pixel for each position, and every colour fits in 24 bits.
    pub open spec fn wf(self) -> bool {
        &&& self.pixels.len() == self.width * self.height
        &&& self.background <= MAX_RGB
        &&& forall|i: int| 0 <= i < self.pixels.len() ==> #[trigger] self.pixels[i] <= MAX_RGB
    }

    /// Whether `(x, y)` is a position of this canvas.
    pub open spec fn contains(self, x: int, y: int) -> bool {
        0 <= x < self.width && 0 <= y < self.height
    }

    /// The place of `(x, y)` in the pixels: rows follow each other.
    pub open spec fn index_of(self, x: int, y: int) -> int {
        y * self.width + x
    }

    /// The position whose pixel is the `i`-th.
    pub open spec fn pos_of(self, i: int) -> (int, int) {
        (i % (self.width as int), i / (self.width as int))
    }

    /// The colour at `(x, y)`.
    pub open spec fn at(self, x: int, y: int) -> u32 {
        self.pixels[self.index_of(x, y)]
    }

    /// A canvas of one colour.
    pub open spec fn blank(title: Seq<char>, width: nat, height: nat, background: u32) -> Canvas {
        Canvas {
            title,
            width,
            height,
            background,
            pixels: Seq::new(width * height, |i: int| background),
        }
    }

    /// The canvas with every pixel set to the background colour.
    pub open spec fn clear(self) -> Canvas {
        Canvas { pixels: Seq::new(self.pixels.len(), |i: int| self.background), ..self }
    }

    /// The canvas with the pixel at `(x, y)` set to `rgb`.
    pub open spec fn set(self, x: int, y: int, rgb: u32) -> Canvas {
        Canvas { pixels: self.pixels.update(self.index_of(x, y), rgb), ..self }
    }

    /// The canvas with every pixel nearer to `(cx, cy)` than `r` set to `rgb`.
    pub open spec fn circle(self, cx: int, cy: int, r: int, rgb: u32) -> Canvas {
        Canvas {
            pixels: Seq::new(
                self.pixels.len(),
                |i: int|
                    if in_circle(self.pos_of(i).0, self.pos_of(i).1, cx, cy, r) {
                        rgb
                    } else {
                        self.pixels[i]
                    },
            ),
            ..self
        }
    }

    /// Whether `p` is a position of this canvas.
    pub open spec fn holds(self, p: (int, int)) -> bool {
        self.contains(p.0, p.1)
    }

    /// Whether one of `points` is a position of this canvas.
    pub open spec fn hits(self, points: Seq<(int, int)>) -> bool {
        exists|k: int| 0 <= k < points.len() && self.holds(#[trigger] points[k])
    }

    /// The canvas with the pixel at each of `points` set to `rgb`; points
    /// that are no positions of the canvas count for nothing.
    pub open spec fn plot(self, points: Seq<(int, int)>, rgb: u32) -> Canvas {
        Canvas {
            pixels: Seq::new(
                self.pixels.len(),
                |i: int|
                    if points.contains(self.pos_of(i)) {
                        rgb
                    } else {
                        self.pixels[i]
                    },
            ),
            ..self
        }
    }
}

/// A position of a canvas has its place among the pixels, and that place
/// leads back to the position.
pub proof fn lemma_index_of_position(c: Canvas, x: int, y: int)
    requires
        c.pixels.len() == c.width * c.height,
        c.contains(x, y),
    ensures
        0 <= c.index_of(x, y) < c.pixels.len(),
        c.pos_of(c.index_of(x, y)) == (x, y),
{
    let w = c.width as int;
    let h = c.height as int;
    assert(0 <= y * w + x < w * h) by (nonlinear_arith)
        requires
            0 <= x < w,
            0 <= y < h,
    ;
    lemma_fundamental_div_mod_converse(y * w + x, w, y, x);
}

/// A place among the pixels belongs to a position of the canvas, and that
/// position leads back to the place.
pub proof fn lemma_position_of_index(c: Canvas, i: int)
    requires
        c.pixels.len() == c.width * c.height,
        0 <= i < c.pixels.len(),
    ensures
        c.contains(c.pos_of(i).0, c.pos_of(i).1),
        c.index_of(c.pos_of(i).0, c.pos_of(i).1) == i,
{
    let w = c.width as int;
    let h = c.height as int;
    assert(w > 0) by (nonlinear_arith)
        requires
            0 <= i < w * h,
            0 <= w,
            0 <= h,
    ;
    lemma_fundamental_div_mod(i, w);
    assert(w * (i / w) == (i / w) * w) by (nonlinear_arith);
    assert(0 <= i / w < h) by (nonlinear_arith)
        requires
            0 <= i < w * h,
            w > 0,
            i == (i / w) * w + i % w,
            0 <= i % w < w,
    ;
}

/// A position that is `r` or more away from the centre along one axis is
/// not within the circle.
pub proof fn lemma_outside_square(x: int, y: int, cx: int, cy: int, r: int)
    requires
        r >= 0,
        x - cx >= r || cx - x >= r || y - cy >= r || cy - y >= r,
    ensures
        !in_circle(x, y, cx, cy, r),
{
    let dx = x - cx;
    let dy = y - cy;
    assert(dx * dx >= 0 && dy * dy >= 0) by (nonlinear_arith);
    if dx >= r || -dx >= r {
        assert(dx * dx >= r * r) by (nonlinear_arith)
            requires
                r >= 0,
                dx >= r || -dx >= r,
        ;
    } else {
        assert(dy * dy >= r * r) by (nonlinear_arith)
            requires
                r >= 0,
                dy >= r || -dy >= r,
        ;
    }
}

/// Whether `pos` lies nearer to `center` than `r`.
pub fn within_radius(pos: (usize, usize), center: (usize, usize), r: usize) -> (b: bool)
    ensures
        b == in_circle(pos.0 as int, pos.1 as int, center.0 as int, center.1 as int, r as int),
{
    let dx: usize = if pos.0 >= center.0 {
        pos.0 - center.0
    } else {
        center.0 - pos.0
    };
    let dy: usize = if pos.1 >= center.1 {
        pos.1 - center.1
    } else {
        center.1 - pos.1
    };
    if dx >= r || dy >= r {
        proof {
            lemma_outside_square(
                pos.0 as int,
                pos.1 as int,
                center.0 as int,
                center.1 as int,
                r as int,
            );
        }
        return false;
    }
    let a: u128 = dx as u128;
    let b: u128 = dy as u128;
    let c: u128 = r as u128;
    proof {
        let sx = pos.0 as int - center.0 as int;
        let sy = pos.1 as int - center.1 as int;
        assert(a * a == sx * sx) by (nonlinear_arith)
            requires
                a == sx || a == -sx,
        ;
        assert(b * b == sy * sy) by (nonlinear_arith)
            requires
                b == sy || b == -sy,
        ;
        assert(a * a < c * c && b * b < c * c && c * c <= 0xFFFF_FFFF_FFFF_FFFF
            * 0xFFFF_FFFF_FFFF_FFFF) by (nonlinear_arith)
            requires
                0 <= a < c,
                0 <= b < c,
                c <= 0xFFFF_FFFF_FFFF_FFFF,
        ;
    }
    a * a < c * c - b * b
}

/// After a clear every pixel has the background colour, and a second clear
/// changes nothing.
pub proof fn clear_is_idempotent(c: Canvas)
    ensures
        forall|i: int| 0 <= i < c.pixels.len() ==> #[trigger] c.clear().pixels[i] == c.background,
        c.clear().pixels.len() == c.pixels.len(),
        c.clear().clear() == c.clear(),
        c.wf() ==> c.clear().wf(),
{
    assert(c.clear().clear().pixels =~= c.clear().pixels);
}

/// The position just past the last column and the one just past the last row
/// are no positions of a canvas; the last column of the last row is one.
pub proof fn corners(c: Canvas)
    ensures
        !c.contains(c.width as int, 0),
        !c.contains(0, c.height as int),
        c.width > 0 && c.height > 0 ==> c.contains(c.width - 1, c.height - 1),
{
}

/// A pixel that was set holds the new colour, and every other pixel holds
/// what it held before.
pub proof fn set_changes_one_pixel(c: Canvas, x: int, y: int, rgb: u32, u: int, v: int)
    requires
        c.pixels.len() == c.width * c.height,
        c.contains(x, y),
        c.contains(u, v),
    ensures
        c.set(x, y, rgb).at(u, v) == (if (u, v) == (x, y) {
            rgb
        } else {
            c.at(u, v)
        }),
{
    lemma_index_of_position(c, x, y);
    lemma_index_of_position(c, u, v);
}

/// After a circle is drawn, a pixel holds the circle's colour where it is
/// nearer to the centre than the radius, and what it held before elsewhere.
pub proof fn circle_changes_the_inside(c: Canvas, cx: int, cy: int, r: int, rgb: u32, u: int, v: int)
    requires
        c.pixels.len() == c.width * c.height,
        c.contains(u, v),
    ensures
        c.circle(cx, cy, r, rgb).at(u, v) == (if in_circle(u, v, cx, cy, r) {
            rgb
        } else {
            c.at(u, v)
        }),
{
    lemma_index_of_position(c, u, v);
}

/// After samples are plotted, a pixel holds the new colour where its
/// position is one of the samples, and what it held before elsewhere.
pub proof fn plot_changes_the_samples(c: Canvas, points: Seq<(int, int)>, rgb: u32, u: int, v: int)
    requires
        c.pixels.len() == c.width * c.height,
        c.contains(u, v),
    ensures
        c.plot(points, rgb).at(u, v) == (if points.contains((u, v)) {
            rgb
        } else {
            c.at(u, v)
        }),
{
    lemma_index_of_position(c, u, v);
}

/// Points that are no positions of a canvas leave it as it is.
pub proof fn plot_outside_changes_nothing(c: Canvas, points: Seq<(int, int)>, rgb: u32)
    requires
        c.pixels.len() == c.width * c.height,
        !c.hits(points),
    ensures
        c.plot(points, rgb) == c,
{
    assert forall|i: int| 0 <= i < c.pixels.len() implies !points.contains(c.pos_of(i)) by {
        lemma_position_of_index(c, i);
        if points.contains(c.pos_of(i)) {
            let k = choose|k: int| 0 <= k < points.len() && points[k] == c.pos_of(i);
            assert(c.holds(points[k]));
        }
    }
    assert(c.plot(points, rgb).pixels =~= c.pixels);
}

/// A pixel buffer with its dimensions, its background colour and the title
/// of the window that shows it.
pub struct WindowContainer {
    buffer: Vec<u32>,
    title: String,
    width: usize,
    height: usize,
    bg_color: u32,
}

impl View for WindowContainer {
    type V = Canvas;

    closed spec fn view(&self) -> Canvas {
        Canvas {
            title: self.title@,
            width: self.width as nat,
            height: self.height as nat,
            background: self.bg_color,
            pixels: self.buffer@,
        }
    }
}

impl WindowContainer {
    /// The container's invariant: that of its canvas.
    pub open spec fn wf(&self) -> bool {
        self@.wf()
    }

    /// Whether `pos` is a position of the buffer.
    pub open spec fn inside(&self, pos: (usize, usize)) -> bool {
        self@.contains(pos.0 as int, pos.1 as int)
    }

    /// The colour at `pos`.
    pub open spec fn at(&self, pos: (usize, usize)) -> u32 {
        self@.at(pos.0 as int, pos.1 as int)
    }

    /// Makes a container of `width` by `height` pixels, all of the colour
    /// that the code `color` stands for.
    pub fn new(width: usize, height: usize, name: &str, color: &str) -> (r: Result<Self, WinErr>)
        requires
            width * height <= usize::MAX,
        ensures
            match r {
                Ok(w) => {
                    &&& is_hex_code(color@)
                    &&& w.wf()
                    &&& w@ == Canvas::blank(name@, width as nat, height as nat, rgb_of(color@) as u32)
                },
                Err(e) => !is_hex_code(color@) && decodes_to(color@, Err::<u32, WinErr>(e)),
            },
    {
        let bg_color = match hex_to_rgb(String::from_str(color)) {
            Ok(v) => v,
            Err(e) => {
                return Err(e);
            },
        };
        Self::with_rgb(width, height, name, bg_color)
    }

    /// Makes a container of `width` by `height` pixels, all of the colour
    /// `bg_color`, which is refused where it does not fit in 24 bits.
    pub fn with_rgb(width: usize, height: usize, name: &str, bg_color: u32) -> (r: Result<Self, WinErr>)
        requires
            width * height <= usize::MAX,
        ensures
            match r {
                Ok(w) => {
                    &&& bg_color <= MAX_RGB
                    &&& w.wf()
                    &&& w@ == Canvas::blank(name@, width as nat, height as nat, bg_color)
                },
                Err(e) => bg_color > MAX_RGB && e == WinErr::InvalidRGBValue(bg_color),
            },
    {
        if bg_color > MAX_RGB {
            return Err(WinErr::InvalidRGBValue(bg_color));
        }
        let buffer = vec![bg_color; width * height];
        let w = WindowContainer { buffer, title: String::from_str(name), width, height, bg_color };
        assert(w@.pixels =~= Canvas::blank(name@, width as nat, height as nat, bg_color).pixels);
        Ok(w)
    }

    /// The title of the window.
    pub fn name(&self) -> (r: &str)
        ensures
            r@ == self@.title,
    {
        self.title.as_str()
    }

    /// The number of pixels in a row.
    pub fn width(&self) -> (r: usize)
        ensures
            r == self@.width,
    {
        self.width
    }

    /// The number of rows.
    pub fn height(&self) -> (r: usize)
        ensures
            r == self@.height,
    {
        self.height
    }

    /// The colour that `clear` fills the buffer with.
    pub fn bg_color(&self) -> (r: u32)
        ensures
            r == self@.background,
    {
        self.bg_color
    }

    /// The pixels, row after row.
    pub fn buffer(&self) -> (r: &Vec<u32>)
        ensures
            r@ == self@.pixels,
    {
        &self.buffer
    }

    /// Clears the buffer to the background colour.
    pub fn clear(&mut self)
        requires
            old(self).wf(),
        ensures
            final(self).wf(),
            final(self)@ == old(self)@.clear(),
    {
        let n = self.buffer.len();
        self.buffer = vec![self.bg_color; n];
        assert(self@.pixels =~= old(self)@.clear().pixels);
    }

    fn pos_to_nth(&self, pos: (usize, usize)) -> (i: usize)
        requires
            self.wf(),
            self@.contains(pos.0 as int, pos.1 as int),
        ensures
            i == self@.index_of(pos.0 as int, pos.1 as int),
            i < self@.pixels.len(),
    {
        proof {
            lemma_index_of_position(self@, pos.0 as int, pos.1 as int);
            assert(self@.pixels.len() == self.buffer.len());
            assert(0 <= pos.1 * self.width) by (nonlinear_arith);
        }
        (pos.1 * self.width) + pos.0
    }

    fn nth_to_pos(&self, i: usize) -> (pos: (usize, usize))
        requires
            self.wf(),
            i < self@.pixels.len(),
        ensures
            (pos.0 as int, pos.1 as int) == self@.pos_of(i as int),
            self@.contains(pos.0 as int, pos.1 as int),
    {
        proof {
            lemma_position_of_index(self@, i as int);
        }
        (i % self.width, i / self.width)
    }

    /// The colour of the pixel at a position, as a code of six digits.
    pub fn get(&self, pos: (usize, usize)) -> (r: Result<String, WinErr>)
        requires
            self.wf(),
        ensures
            match r {
                Ok(s) => self.inside(pos) && s@ == hex_triplet(self.at(pos) as nat),
                Err(e) => !self.inside(pos) && e == WinErr::InvalidPos(pos),
            },
    {
        match self.get_rgb(pos) {
            Ok(val) => rgb_to_hex(val),
            Err(e) => Err(e),
        }
    }

    /// The colour of the pixel at a position, as a number.
    pub fn get_rgb(&self, pos: (usize, usize)) -> (r: Result<u32, WinErr>)
        requires
            self.wf(),
        ensures
            match r {
                Ok(v) => self.inside(pos) && v == self.at(pos) && v <= MAX_RGB,
                Err(e) => !self.inside(pos) && e == WinErr::InvalidPos(pos),
            },
    {
        if pos.0 >= self.width {
            return Err(WinErr::InvalidPos(pos));
        }
        if pos.1 >= self.height {
            return Err(WinErr::InvalidPos(pos));
        }
        let i = self.pos_to_nth(pos);
        Ok(self.buffer[i])
    }

    /// Sets the pixel at a position to the colour that the code `val` stands
    /// for. The position is looked at first, then the code; where either is
    /// refused nothing changes.
    pub fn set(&mut self, pos: (usize, usize), val: &str) -> (r: Result<(), WinErr>)
        requires
            old(self).wf(),
        ensures
            final(self).wf(),
            match r {
                Ok(_) => {
                    &&& old(self).inside(pos)
                    &&& is_hex_code(val@)
                    &&& final(self)@ == old(self)@.set(
                        pos.0 as int,
                        pos.1 as int,
                        rgb_of(val@) as u32,
                    )
                },
                Err(e) => {
                    &&& final(self)@ == old(self)@
                    &&& if !old(self).inside(pos) {
                        e == WinErr::InvalidPos(pos)
                    } else {
                        !is_hex_code(val@) && decodes_to(val@, Err::<u32, WinErr>(e))
                    }
                },
            },
    {
        if pos.0 >= self.width {
            return Err(WinErr::InvalidPos(pos));
        }
        if pos.1 >= self.height {
            return Err(WinErr::InvalidPos(pos));
        }
        let rgb = match hex_to_rgb(String::from_str(val)) {
            Ok(v) => v,
            Err(e) => {
                return Err(e);
            },
        };
        self.set_rgb(pos, rgb)
    }

    /// Sets the pixel at a position to the colour `rgb`. The position is
    /// looked at first, then the colour, which has to fit in 24 bits; where
    /// either is refused nothing changes.
    pub fn set_rgb(&mut self, pos: (usize, usize), rgb: u32) -> (r: Result<(), WinErr>)
        requires
            old(self).wf(),
        ensures
            final(self).wf(),
            match r {
                Ok(_) => {
                    &&& old(self).inside(pos)
                    &&& rgb <= MAX_RGB
                    &&& final(self)@ == old(self)@.set(pos.0 as int, pos.1 as int, rgb)
                },
                Err(e) => {
                    &&& final(self)@ == old(self)@
                    &&& if !old(self).inside(pos) {
                        e == WinErr::InvalidPos(pos)
                    } else {
                        rgb > MAX_RGB && e == WinErr::InvalidRGBValue(rgb)
                    }
                },
            },
    {
        if pos.0 >= self.width {
            return Err(WinErr::InvalidPos(pos));
        }
        if pos.1 >= self.height {
            return Err(WinErr::InvalidPos(pos));
        }
        if rgb > MAX_RGB {
            return Err(WinErr::InvalidRGBValue(rgb));
        }
        let i = self.pos_to_nth(pos);
        self.buffer[i] = rgb;
        Ok(())
    }

    /// The colour of the `i`-th pixel, counted row after row, as a number.
    pub fn get_nth(&self, i: usize) -> (r: Result<u32, WinErr>)
        requires
            self.wf(),
        ensures
            match r {
                Ok(v) => i < self@.pixels.len() && v == self@.pixels[i as int] && v <= MAX_RGB,
                Err(e) => i >= self@.pixels.len() && e == WinErr::InvalidIndex(i),
            },
    {
        if i >= self.buffer.len() {
            return Err(WinErr::InvalidIndex(i));
        }
        Ok(self.buffer[i])
    }

    /// Sets the `i`-th pixel, counted row after row, to the colour `rgb`. The
    /// index is looked at first, then the colour, which has to fit in 24
    /// bits; where either is refused nothing changes.
    pub fn set_nth(&mut self, i: usize, rgb: u32) -> (r: Result<(), WinErr>)
        requires
            old(self).wf(),
        ensures
            final(self).wf(),
            match r {
                Ok(_) => {
                    &&& i < old(self)@.pixels.len()
                    &&& rgb <= MAX_RGB
                    &&& final(self)@ == (Canvas {
                        pixels: old(self)@.pixels.update(i as int, rgb),
                        ..old(self)@
                    })
                },
                Err(e) => {
                    &&& final(self)@ == old(self)@
                    &&& if i >= old(self)@.pixels.len() {
                        e == WinErr::InvalidIndex(i)
                    } else {
                        rgb > MAX_RGB && e == WinErr::InvalidRGBValue(rgb)
                    }
                },
            },
    {
        if i >= self.buffer.len() {
            return Err(WinErr::InvalidIndex(i));
        }
        if rgb > MAX_RGB {
            return Err(WinErr::InvalidRGBValue(rgb));
        }
        self.buffer[i] = rgb;
        Ok(())
    }

    /// Draws a filled circle round `pos`: every pixel nearer to `pos` than
    /// `r` takes the colour that the code `color` stands for, and no other
    /// pixel changes. The centre has to be a position of the buffer. The
    /// code is read only where there is a pixel to colour, so with `r` zero
    /// any code passes.
    pub fn circle(&mut self, pos: (usize, usize), r: usize, color: &str) -> (res: Result<(), WinErr>)
        requires
            old(self).wf(),
        ensures
            final(self).wf(),
            match res {
                Ok(_) => {
                    &&& old(self).inside(pos)
                    &&& if r == 0 {
                        final(self)@ == old(self)@
                    } else {
                        &&& is_hex_code(color@)
                        &&& final(self)@ == old(self)@.circle(
                            pos.0 as int,
                            pos.1 as int,
                            r as int,
                            rgb_of(color@) as u32,
                        )
                    }
                },
                Err(e) => {
                    &&& final(self)@ == old(self)@
                    &&& if !old(self).inside(pos) {
                        e == WinErr::InvalidPos(pos)
                    } else {
                        r > 0 && !is_hex_code(color@) && decodes_to(color@, Err::<u32, WinErr>(e))
                    }
                },
            },
    {
        if pos.0 >= self.width {
            return Err(WinErr::InvalidPos(pos));
        }
        if pos.1 >= self.height {
            return Err(WinErr::InvalidPos(pos));
        }
        if r == 0 {
            return Ok(());
        }
        let rgb = match hex_to_rgb(String::from_str(color)) {
            Ok(v) => v,
            Err(e) => {
                return Err(e);
            },
        };
        self.circle_rgb(pos, r, rgb)
    }

    /// Draws a filled circle round `pos` in the colour `rgb`: every pixel
    /// nearer to `pos` than `r` takes it, and no other pixel changes. The
    /// centre is looked at first, then the colour, which has to fit in 24
    /// bits; where either is refused nothing changes.
    pub fn circle_rgb(&mut self, pos: (usize, usize), r: usize, rgb: u32) -> (res: Result<(), WinErr>)
        requires
            old(self).wf(),
        ensures
            final(self).wf(),
            match res {
                Ok(_) => {
                    &&& old(self).inside(pos)
                    &&& rgb <= MAX_RGB
                    &&& final(self)@ == old(self)@.circle(pos.0 as int, pos.1 as int, r as int, rgb)
                },
                Err(e) => {
                    &&& final(self)@ == old(self)@
                    &&& if !old(self).inside(pos) {
                        e == WinErr::InvalidPos(pos)
                    } else {
                        rgb > MAX_RGB && e == WinErr::InvalidRGBValue(rgb)
                    }
                },
            },
    {
        if pos.0 >= self.width {
            return Err(WinErr::InvalidPos(pos));
        }
        if pos.1 >= self.height {
            return Err(WinErr::InvalidPos(pos));
        }
        if rgb > MAX_RGB {
            return Err(WinErr::InvalidRGBValue(rgb));
        }
        let ghost before = self@;
        let ghost w = self.width as int;
        let ghost cx = pos.0 as int;
        let ghost cy = pos.1 as int;
        let x0: usize = if r > pos.0 {
            0
        } else {
            pos.0 - r
        };
        let y0: usize = if r > pos.1 {
            0
        } else {
            pos.1 - r
        };
        let x1: usize = if r >= self.width - pos.0 {
            self.width
        } else {
            pos.0 + r
        };
        let y1: usize = if r >= self.height - pos.1 {
            self.height
        } else {
            pos.1 + r
        };
        let mut y: usize = y0;
        proof {
            assert forall|i: int| 0 <= i < self.buffer@.len() implies #[trigger] self.buffer@[i]
                == (if i / w < y0 && in_circle(i % w, i / w, cx, cy, r as int) {
                rgb
            } else {
                before.pixels[i]
            }) by {
                if i / w < y0 {
                    lemma_outside_square(i % w, i / w, cx, cy, r as int);
                }
            }
        }
        while y < y1
            invariant
                before.wf(),
                before.contains(cx, cy),
                before == old(self)@,
                w == self.width,
                cx == pos.0,
                cy == pos.1,
                rgb <= MAX_RGB,
                self.width == before.width,
                self.height == before.height,
                self.bg_color == before.background,
                self.title@ == before.title,
                self.buffer@.len() == before.pixels.len(),
                x0 == (if r > pos.0 { 0 } else { pos.0 - r }),
                x1 == (if r >= self.width - pos.0 { self.width as int } else { pos.0 + r }),
                y0 <= y <= y1 <= self.height,
                x0 <= x1 <= self.width,
                forall|i: int|
                    0 <= i < self.buffer@.len() ==> #[trigger] self.buffer@[i] == (if i / w < y
                        && in_circle(i % w, i / w, cx, cy, r as int) {
                        rgb
                    } else {
                        before.pixels[i]
                    }),
            decreases y1 - y,
        {
            let mut x: usize = x0;
            proof {
                assert forall|i: int| 0 <= i < self.buffer@.len() implies #[trigger] self.buffer@[i]
                    == (if (i / w < y || (i / w == y && i % w < x0)) && in_circle(
                    i % w,
                    i / w,
                    cx,
                    cy,
                    r as int,
                ) {
                    rgb
                } else {
                    before.pixels[i]
                }) by {
                    if i % w < x0 {
                        lemma_outside_square(i % w, i / w, cx, cy, r as int);
                    }
                }
            }
            while x < x1
                invariant
                    before.wf(),
                    before.contains(cx, cy),
                    w == self.width,
                    cx == pos.0,
                    cy == pos.1,
                    rgb <= MAX_RGB,
                    self.width == before.width,
                    self.height == before.height,
                    self.bg_color == before.background,
                    self.title@ == before.title,
                    self.buffer@.len() == before.pixels.len(),
                    y < y1 <= self.height,
                    x0 <= x <= x1 <= self.width,
                    forall|i: int|
                        0 <= i < self.buffer@.len() ==> #[trigger] self.buffer@[i] == (if (i / w < y
                            || (i / w == y && i % w < x)) && in_circle(
                            i % w,
                            i / w,
                            cx,
                            cy,
                            r as int,
                        ) {
                            rgb
                        } else {
                            before.pixels[i]
                        }),
                decreases x1 - x,
            {
                let ghost row = self.buffer@;
                proof {
                    lemma_index_of_position(before, x as int, y as int);
                    assert(0 <= y * self.width) by (nonlinear_arith);
                    assert(before.pixels.len() == self.buffer.len());
                }
                if within_radius((x, y), pos, r) {
                    let i: usize = y * self.width + x;
                    self.buffer[i] = rgb;
                }
                proof {
                    assert forall|j: int| 0 <= j < self.buffer@.len() implies #[trigger] self.buffer@[j]
                        == (if (j / w < y || (j / w == y && j % w < x + 1)) && in_circle(
                        j % w,
                        j / w,
                        cx,
                        cy,
                        r as int,
                    ) {
                        rgb
                    } else {
                        before.pixels[j]
                    }) by {
                        lemma_fundamental_div_mod(j, w);
                        assert(w * (j / w) == (j / w) * w) by (nonlinear_arith);
                        assert(row[j] == (if (j / w < y || (j / w == y && j % w < x)) && in_circle(
                            j % w,
                            j / w,
                            cx,
                            cy,
                            r as int,
                        ) {
                            rgb
                        } else {
                            before.pixels[j]
                        }));
                    }
                }
                x = x + 1;
            }
            proof {
                assert forall|i: int| 0 <= i < self.buffer@.len() implies #[trigger] self.buffer@[i]
                    == (if i / w < y + 1 && in_circle(i % w, i / w, cx, cy, r as int) {
                    rgb
                } else {
                    before.pixels[i]
                }) by {
                    lemma_position_of_index(before, i);
                    if i / w == y && i % w >= x1 {
                        lemma_outside_square(i % w, i / w, cx, cy, r as int);
                    }
                }
            }
            y = y + 1;
        }
        proof {
            assert forall|i: int| 0 <= i < self.buffer@.len() implies #[trigger] self.buffer@[i]
                == before.circle(cx, cy, r as int, rgb).pixels[i] by {
                lemma_position_of_index(before, i);
                if i / w >= y1 {
                    lemma_outside_square(i % w, i / w, cx, cy, r as int);
                }
            }
            assert(self@.pixels =~= before.circle(cx, cy, r as int, rgb).pixels);
        }
        Ok(())
    }

    /// Whether one of the samples is a position of the buffer.
    pub fn any_inside(&self, samples: &Vec<(i64, i64)>) -> (b: bool)
        ensures
            b == self@.hits(as_points(samples@)),
    {
        let ghost points = as_points(samples@);
        let mut k: usize = 0;
        while k < samples.len()
            invariant
                k <= samples.len(),
                points == as_points(samples@),
                forall|j: int| 0 <= j < k ==> !self@.holds(#[trigger] points[j]),
            decreases samples.len() - k,
        {
            let (sx, sy) = samples[k];
            if sx >= 0 && sy >= 0 && (sx as u64) < (self.width as u64) && (sy as u64) < (
            self.height as u64) {
                assert(self@.holds(points[k as int]));
                return true;
            }
            k = k + 1;
        }
        false
    }

    /// Colours the pixel at every sample that is a position of the buffer
    /// with the colour that the code `color` stands for; the other samples
    /// are passed over. The code is read only where there is a pixel to
    /// colour, so where no sample is a position any code passes.
    pub fn plot(&mut self, samples: &Vec<(i64, i64)>, color: &str) -> (res: Result<(), WinErr>)
        requires
            old(self).wf(),
        ensures
            final(self).wf(),
            match res {
                Ok(_) => if is_hex_code(color@) {
                    final(self)@ == old(self)@.plot(as_points(samples@), rgb_of(color@) as u32)
                } else {
                    !old(self)@.hits(as_points(samples@)) && final(self)@ == old(self)@
                },
                Err(e) => {
                    &&& final(self)@ == old(self)@
                    &&& old(self)@.hits(as_points(samples@))
                    &&& !is_hex_code(color@)
                    &&& decodes_to(color@, Err::<u32, WinErr>(e))
                },
            },
    {
        let rgb = match hex_to_rgb(String::from_str(color)) {
            Ok(v) => v,
            Err(e) => {
                if self.any_inside(samples) {
                    return Err(e);
                } else {
                    return Ok(());
                }
            },
        };
        let ghost before = self@;
        let ghost points = as_points(samples@);
        let ghost w = self.width as int;
        let mut k: usize = 0;
        while k < samples.len()
            invariant
                before.wf(),
                before == old(self)@,
                points == as_points(samples@),
                w == self.width,
                rgb <= MAX_RGB,
                k <= samples.len(),
                self.width == before.width,
                self.height == before.height,
                self.bg_color == before.background,
                self.title@ == before.title,
                self.buffer@.len() == before.pixels.len(),
                forall|i: int|
                    0 <= i < self.buffer@.len() ==> #[trigger] self.buffer@[i] == (if among_first(
                        points,
                        k as nat,
                        before.pos_of(i),
                    ) {
                        rgb
                    } else {
                        before.pixels[i]
                    }),
            decreases samples.len() - k,
        {
            let ghost row = self.buffer@;
            let (sx, sy) = samples[k];
            let inside = sx >= 0 && sy >= 0 && (sx as u64) < (self.width as u64) && (sy as u64) < (
            self.height as u64);
            if inside {
                proof {
                    lemma_index_of_position(before, sx as int, sy as int);
                    assert(0 <= sy * self.width) by (nonlinear_arith)
                        requires
                            sy >= 0,
                    ;
                    assert(before.pixels.len() == self.buffer.len());
                }
                let i: usize = (sy as usize) * self.width + (sx as usize);
                self.buffer[i] = rgb;
            }
            proof {
                assert(points[k as int] == (sx as int, sy as int));
                assert forall|j: int| 0 <= j < self.buffer@.len() implies #[trigger] self.buffer@[j]
                    == (if among_first(points, (k + 1) as nat, before.pos_of(j)) {
                    rgb
                } else {
                    before.pixels[j]
                }) by {
                    lemma_position_of_index(before, j);
                    assert(row[j] == (if among_first(points, k as nat, before.pos_of(j)) {
                        rgb
                    } else {
                        before.pixels[j]
                    }));
                }
            }
            k = k + 1;
        }
        proof {
            assert forall|i: int| 0 <= i < self.buffer@.len() implies #[trigger] self.buffer@[i]
                == before.plot(points, rgb).pixels[i] by {
                lemma_among_all(points, points.len(), before.pos_of(i));
            }
            assert(self@.pixels =~= before.plot(points, rgb).pixels);
            if !before.hits(points) {
                plot_outside_changes_nothing(before, points, rgb);
            }
        }
        Ok(())
    }

    /// Every pixel with its position, row after row. The table is a copy:
    /// what is done to it does not reach the buffer.
    pub fn iter(&self) -> (table: Vec<(u32, (usize, usize))>)
        requires
            self.wf(),
        ensures
            table@.len() == self@.pixels.len(),
            forall|i: int|
                0 <= i < table@.len() ==> {
                    &&& (#[trigger] table@[i]).0 == self@.pixels[i]
                    &&& (table@[i].1.0 as int, table@[i].1.1 as int) == self@.pos_of(i)
                },
    {
        let mut table: Vec<(u32, (usize, usize))> = vec![];
        let n = self.buffer.len();
        let mut i: usize = 0;
        while i < n
            invariant
                self.wf(),
                n == self@.pixels.len(),
                i <= n,
                table@.len() == i,
                forall|k: int|
                    0 <= k < i ==> {
                        &&& (#[trigger] table@[k]).0 == self@.pixels[k]
                        &&& (table@[k].1.0 as int, table@[k].1.1 as int) == self@.pos_of(k)
                    },
            decreases n - i,
        {
            table.push((self.buffer[i], self.nth_to_pos(i)));
            i = i + 1;
        }
        table
    }
}

} // verus!
