//! Bar-chart rendering of a list: a fixed layout computed once from the
//! initial values, a pixel-exact draw of visual updates into a frame
//! buffer, and the renderer state that applies the revert policy so that
//! transient read/write highlights fade back to idle on the next batch.

use vstd::prelude::*;

verus! {

use crate::events::{ColorClass, ListUpdate};
use vstd::arithmetic::div_mod::{
    lemma_fundamental_div_mod,
    lemma_fundamental_div_mod_converse_div,
    lemma_fundamental_div_mod_converse_mod,
    lemma_mod_bound,
};
use vstd::arithmetic::mul::lemma_mul_inequality;

/// The pixel value of each color class, fixed at construction and passed
/// explicitly wherever colors are needed.
#[derive(Copy, Clone, Debug, PartialEq, Eq, Structural)]
pub struct ColorScheme {
    pub background: u32,
    pub fill: u32,
    pub read: u32,
    pub write: u32,
    pub done_ok: u32,
    pub done_error: u32,
}

/// The colors the window shows by default.
pub open spec fn standard_colors() -> ColorScheme {
    ColorScheme {
        background: 0xFF111111u32,
        fill: 0xFFAAAAAAu32,
        read: 0xFF00AAAAu32,
        write: 0xFFAA0055u32,
        done_ok: 0xFF00AA22u32,
        done_error: 0xFFAA0022u32,
    }
}

impl ColorScheme {
    pub fn standard() -> (r: ColorScheme)
        ensures
            r == standard_colors(),
    {
        ColorScheme {
            background: 0xFF111111,
            fill: 0xFFAAAAAA,
            read: 0xFF00AAAA,
            write: 0xFFAA0055,
            done_ok: 0xFF00AA22,
            done_error: 0xFFAA0022,
        }
    }

    /// The pixel value of one color class; the idle class paints the fill
    /// color.
    pub open spec fn spec_pixel(&self, c: ColorClass) -> u32 {
        match c {
            ColorClass::Idle => self.fill,
            ColorClass::Read => self.read,
            ColorClass::Write => self.write,
            ColorClass::DoneOk => self.done_ok,
            ColorClass::DoneError => self.done_error,
        }
    }

    pub fn pixel(&self, c: ColorClass) -> (r: u32)
        ensures
            r == self.spec_pixel(c),
    {
        match c {
            ColorClass::Idle => self.fill,
            ColorClass::Read => self.read,
            ColorClass::Write => self.write,
            ColorClass::DoneOk => self.done_ok,
            ColorClass::DoneError => self.done_error,
        }
    }
}

/// The fixed layout of a run: window size, margin, the horizontal span of
/// each bar, and the largest initial value, which fixes the vertical
/// scale.  Derived once from the initial values and never recomputed, so
/// a value that grew beyond the initial maximum would not fit the frame;
/// the draw contract therefore requires values to stay within it.
pub struct ListVisualization {
    pub width: usize,
    pub height: usize,
    pub margin: usize,
    pub element_positions: Vec<(usize, usize)>,
    pub max_value: u32,
}

/// The horizontal width of one bar, from the window width, the margin and
/// the number of bars.
pub open spec fn spec_element_width(width: int, margin: int, n: int) -> int {
    (width - (n + 1) * margin) / n
}

/// An update that fits the layout: its index names a bar and its value is
/// within the initial maximum.
pub open spec fn valid_update(vis: ListVisualization, u: ListUpdate) -> bool {
    &&& (u.index as int) < vis.element_positions@.len()
    &&& u.value <= vis.max_value
}

impl ListVisualization {
    /// The layout is internally consistent: margins fit the height, every
    /// bar span lies inside the width, and the frame buffer size fits the
    /// machine.
    pub open spec fn wf(&self) -> bool {
        &&& 2 * self.margin <= self.height
        &&& forall|i: int|
            0 <= i < self.element_positions@.len() ==> (#[trigger] self.element_positions@[i]).0
                <= self.element_positions@[i].1 <= self.width
        &&& self.width * self.height <= usize::MAX
    }

    /// Compute the layout from the initial values: equal bar widths with
    /// a margin between and around them, and the vertical scale from the
    /// largest initial value.
    pub fn autogenerate(data: &Vec<u32>, width: usize, height: usize, margin: usize) -> (r:
        ListVisualization)
        requires
            data@.len() >= 1,
            2 * margin <= height,
            (data@.len() + 1) * margin <= width,
            width * height <= usize::MAX,
        ensures
            r.wf(),
            r.width == width,
            r.height == height,
            r.margin == margin,
            r.element_positions@.len() == data@.len(),
            forall|i: int| 0 <= i < data@.len() ==> data@[i] <= r.max_value,
            exists|i: int| 0 <= i < data@.len() && data@[i] == r.max_value,
            forall|i: int|
                0 <= i < data@.len() ==> (#[trigger] r.element_positions@[i]).0 == margin + i * (
                spec_element_width(width as int, margin as int, data@.len() as int) + margin),
            forall|i: int|
                0 <= i < data@.len() ==> (#[trigger] r.element_positions@[i]).1
                    == r.element_positions@[i].0 + spec_element_width(
                    width as int,
                    margin as int,
                    data@.len() as int,
                ),
    {
        let n = data.len();
        let mut largest: u32 = data[0];
        let mut i: usize = 1;
        while i < n
            invariant
                1 <= i <= n,
                n == data@.len(),
                forall|k: int| 0 <= k < i ==> data@[k] <= largest,
                exists|k: int| 0 <= k < i && data@[k] == largest,
            decreases n - i,
        {
            if data[i] > largest {
                largest = data[i];
            }
            i += 1;
        }
        proof {
            assert(n * margin <= (n + 1) * margin) by {
                lemma_mul_inequality(n as int, n as int + 1, margin as int);
            }
            assert((n as int + 1) * (margin as int) == n as int * margin as int + margin as int)
                by (nonlinear_arith);
        }
        let element_width = (width - margin - n * margin) / n;
        let ghost ew = spec_element_width(width as int, margin as int, n as int);
        proof {
            assert(width - margin - n * margin == width - (n as int + 1) * (margin as int));
            lemma_fundamental_div_mod((width - margin - n * margin) as int, n as int);
            assert(n * ew <= width - (n + 1) * margin);
        }
        proof {
            assert(n * (ew + margin as int) <= width - margin) by (nonlinear_arith)
                requires
                    n * ew <= width - (n + 1) * margin,
                    n >= 1,
                    ew >= 0,
                    0 <= margin,
            ;
        }
        let mut element_positions: Vec<(usize, usize)> = Vec::new();
        let mut position: usize = margin;
        let mut j: usize = 0;
        while j < n
            invariant
                j <= n,
                n == data@.len(),
                element_positions@.len() == j,
                ew == spec_element_width(width as int, margin as int, n as int),
                ew >= 0,
                element_width == ew,
                n * ew <= width - (n + 1) * margin,
                position == margin + j * (ew + margin),
                position + (n - j) * (ew + margin) <= width,
                forall|i: int|
                    0 <= i < j ==> (#[trigger] element_positions@[i]).0 == margin + i * (ew
                        + margin),
                forall|i: int|
                    0 <= i < j ==> (#[trigger] element_positions@[i]).1
                        == element_positions@[i].0 + ew,
            decreases n - j,
        {
            proof {
                assert((n - j) * (ew + margin) >= 1 * (ew + margin)) by {
                    lemma_mul_inequality(1, n - j, ew + margin as int);
                }
                assert((j + 1) * (ew + margin) == j * (ew + margin) + (ew + margin))
                    by (nonlinear_arith);
                assert((n - j - 1) * (ew + margin) == (n - j) * (ew + margin) - (ew + margin))
                    by (nonlinear_arith);
            }
            element_positions.push((position, position + element_width));
            position = position + element_width + margin;
            j += 1;
        }
        proof {
            assert(n * (ew + margin as int) <= width - margin) by (nonlinear_arith)
                requires
                    n * ew <= width - (n + 1) * margin,
                    n >= 1,
                    ew >= 0,
                    0 <= margin,
            ;
            assert forall|i: int| 0 <= i < n implies margin + #[trigger] (i * (ew
                + margin as int)) + ew <= width by {
                lemma_mul_inequality(i + 1, n as int, ew + margin as int);
                assert((i + 1) * (ew + margin as int) == i * (ew + margin as int) + (ew
                    + margin as int)) by (nonlinear_arith);
            }
        }
        ListVisualization { width, height, margin, element_positions, max_value: largest }
    }
}

/// The height in pixels of the bar for `value`: the drawable height scaled
/// by the ratio of the value to the largest initial value.
pub open spec fn spec_bar_height(vis: ListVisualization, value: u32) -> int {
    if vis.max_value == 0 {
        0
    } else {
        (value * (vis.height - 2 * vis.margin)) / (vis.max_value as int)
    }
}

/// What one visual update makes of the pixel at column `x`, row `y`, whose
/// previous value is `p`: columns outside the bar's span keep `p`; inside
/// it, rows above the bar and in the bottom margin show the background and
/// the bar itself shows the update's color.
pub open spec fn spec_pixel_after(
    vis: ListVisualization,
    colors: ColorScheme,
    u: ListUpdate,
    x: int,
    y: int,
    p: u32,
) -> u32 {
    let x0 = vis.element_positions@[u.index as int].0;
    let x1 = vis.element_positions@[u.index as int].1;
    let y_bound = vis.height - vis.margin - spec_bar_height(vis, u.value);
    if x0 <= x < x1 {
        if y < y_bound {
            colors.background
        } else if y >= vis.height - vis.margin {
            colors.background
        } else {
            colors.spec_pixel(u.color)
        }
    } else {
        p
    }
}

/// The frame buffer after one visual update is drawn.
pub open spec fn spec_draw_one(
    vis: ListVisualization,
    colors: ColorScheme,
    fb: Seq<u32>,
    u: ListUpdate,
) -> Seq<u32> {
    Seq::new(
        fb.len(),
        |k: int|
            spec_pixel_after(vis, colors, u, k % (vis.width as int), k / (vis.width as int), fb[k]),
    )
}

/// The frame buffer after a batch of visual updates is drawn in order.
pub open spec fn spec_draw(
    vis: ListVisualization,
    colors: ColorScheme,
    fb: Seq<u32>,
    changes: Seq<ListUpdate>,
) -> Seq<u32>
    decreases changes.len(),
{
    if changes.len() == 0 {
        fb
    } else {
        spec_draw_one(vis, colors, spec_draw(vis, colors, fb, changes.drop_last()), changes.last())
    }
}

/// Drawing one batch after another is drawing their concatenation.
pub proof fn lemma_spec_draw_concat(
    vis: ListVisualization,
    colors: ColorScheme,
    fb: Seq<u32>,
    a: Seq<ListUpdate>,
    b: Seq<ListUpdate>,
)
    ensures
        spec_draw(vis, colors, fb, a + b) == spec_draw(vis, colors, spec_draw(vis, colors, fb, a), b),
    decreases b.len(),
{
    if b.len() == 0 {
        assert(a + b =~= a);
    } else {
        assert((a + b).drop_last() =~= a + b.drop_last());
        lemma_spec_draw_concat(vis, colors, fb, a, b.drop_last());
        assert(spec_draw(vis, colors, fb, a + b.drop_last()).len() == spec_draw(
            vis,
            colors,
            fb,
            a + b.drop_last(),
        ).len());
    }
}

impl ListVisualization {
    /// The frame buffer cut at row `y_lim`, column `x_lim`: pixels of
    /// earlier rows, and of row `y_lim` left of `x_lim`, already carry the
    /// update; later pixels are still the old ones.
    pub open spec fn spec_draw_upto(
        &self,
        colors: ColorScheme,
        fb: Seq<u32>,
        u: ListUpdate,
        y_lim: int,
        x_lim: int,
    ) -> Seq<u32> {
        Seq::new(
            fb.len(),
            |k: int|
                {
                    let x = k % (self.width as int);
                    let y = k / (self.width as int);
                    if y < y_lim || (y == y_lim && x < x_lim) {
                        spec_pixel_after(*self, colors, u, x, y, fb[k])
                    } else {
                        fb[k]
                    }
                },
        )
    }

    /// Draw one visual update: repaint the bar's columns, background above
    /// the bar and in the bottom margin, the update's color on the bar.
    fn draw_update(&self, u: ListUpdate, colors: &ColorScheme, framebuffer: &mut Vec<u32>)
        requires
            self.wf(),
            valid_update(*self, u),
            old(framebuffer)@.len() == self.width * self.height,
        ensures
            final(framebuffer)@ == spec_draw_one(*self, *colors, old(framebuffer)@, u),
    {
        let ghost fb0 = framebuffer@;
        let (x0, x1) = self.element_positions[u.index];
        let drawable = self.height - 2 * self.margin;
        let bar: usize = if self.max_value == 0 {
            0
        } else {
            proof {
                assert((u.value as int) * (drawable as int) <= 0xFFFFFFFFint
                    * 0xFFFFFFFFFFFFFFFFint) by (nonlinear_arith)
                    requires
                        0 <= (u.value as int) <= 0xFFFFFFFFint,
                        0 <= (drawable as int) <= 0xFFFFFFFFFFFFFFFFint,
                ;
            }
            let wide = (u.value as u128) * (drawable as u128);
            let b = wide / (self.max_value as u128);
            proof {
                assert((u.value as int) * (drawable as int) <= (self.max_value as int) * (
                drawable as int)) by {
                    lemma_mul_inequality(u.value as int, self.max_value as int, drawable as int);
                }
                assert((u.value as int) * (drawable as int) / (self.max_value as int) <= (
                self.max_value as int) * (drawable as int) / (self.max_value as int)) by {
                    vstd::arithmetic::div_mod::lemma_div_is_ordered(
                        (u.value as int) * (drawable as int),
                        (self.max_value as int) * (drawable as int),
                        self.max_value as int,
                    );
                }
                assert((self.max_value as int) * (drawable as int) / (self.max_value as int)
                    == drawable as int) by {
                    vstd::arithmetic::div_mod::lemma_div_multiples_vanish(
                        drawable as int,
                        self.max_value as int,
                    );
                }
            }
            b as usize
        };
        let ghost y_bound_spec = self.height - self.margin - spec_bar_height(*self, u.value);
        let y_bound = self.height - self.margin - bar;
        let mut y: usize = 0;
        while y < self.height
            invariant
                self.wf(),
                valid_update(*self, u),
                fb0.len() == self.width * self.height,
                framebuffer@.len() == fb0.len(),
                y <= self.height,
                x0 == self.element_positions@[u.index as int].0,
                x1 == self.element_positions@[u.index as int].1,
                x1 <= self.width,
                bar as int == spec_bar_height(*self, u.value),
                bar <= self.height - 2 * self.margin,
                y_bound == self.height - self.margin - bar,
                framebuffer@ == self.spec_draw_upto(*colors, fb0, u, y as int, x0 as int),
            decreases self.height - y,
        {
            let row_color = if y < y_bound {
                colors.background
            } else if y >= self.height - self.margin {
                colors.background
            } else {
                colors.pixel(u.color)
            };
            let mut x: usize = x0;
            proof {
                assert((y as int) * (self.width as int) + self.width <= (self.height as int) * (
                self.width as int)) by (nonlinear_arith)
                    requires
                        (y as int) < (self.height as int),
                        0 <= (self.width as int),
                ;
                assert((self.height as int) * (self.width as int) == (self.width as int) * (
                self.height as int)) by (nonlinear_arith);
            }
            let row_base = y * self.width;
            while x < x1
                invariant
                    self.wf(),
                    valid_update(*self, u),
                    fb0.len() == self.width * self.height,
                    framebuffer@.len() == fb0.len(),
                    y < self.height,
                    x0 <= x <= x1 <= self.width,
                    x0 == self.element_positions@[u.index as int].0,
                    x1 == self.element_positions@[u.index as int].1,
                    bar as int == spec_bar_height(*self, u.value),
                    bar <= self.height - 2 * self.margin,
                    y_bound == self.height - self.margin - bar,
                    row_base == y * self.width,
                    row_base + self.width <= fb0.len(),
                    row_color == (if y < y_bound || y >= self.height - self.margin {
                        colors.background
                    } else {
                        colors.spec_pixel(u.color)
                    }),
                    framebuffer@ == self.spec_draw_upto(*colors, fb0, u, y as int, x as int),
                decreases x1 - x,
            {
                let ghost before = framebuffer@;
                let idx = row_base + x;
                framebuffer[idx] = row_color;
                proof {
                    lemma_fundamental_div_mod_converse_div(
                        idx as int,
                        self.width as int,
                        y as int,
                        x as int,
                    );
                    lemma_fundamental_div_mod_converse_mod(
                        idx as int,
                        self.width as int,
                        y as int,
                        x as int,
                    );
                    assert forall|k: int| 0 <= k < fb0.len() implies framebuffer@[k]
                        == self.spec_draw_upto(*colors, fb0, u, y as int, x as int + 1)[k] by {
                        let w = self.width as int;
                        lemma_mod_bound(k, w);
                        lemma_fundamental_div_mod(k, w);
                        assert(before[k] == self.spec_draw_upto(
                            *colors,
                            fb0,
                            u,
                            y as int,
                            x as int,
                        )[k]);
                        if k == idx as int {
                            assert(k / w == y as int && k % w == x as int);
                            assert(framebuffer@[k] == row_color);
                        } else {
                            assert(framebuffer@[k] == before[k]);
                            if k / w == y as int && k % w == x as int {
                                assert(k == w * (y as int) + (x as int));
                                assert(idx as int == (y as int) * w + (x as int));
                                assert((y as int) * w == w * (y as int)) by (nonlinear_arith);
                                assert(false);
                            }
                        }
                    }
                    assert(framebuffer@ =~= self.spec_draw_upto(
                        *colors,
                        fb0,
                        u,
                        y as int,
                        x as int + 1,
                    ));
                }
                x += 1;
            }
            proof {
                assert forall|k: int| 0 <= k < fb0.len() implies self.spec_draw_upto(
                    *colors,
                    fb0,
                    u,
                    y as int,
                    x1 as int,
                )[k] == self.spec_draw_upto(*colors, fb0, u, y as int + 1, x0 as int)[k] by {
                    let w = self.width as int;
                    assert((self.width as int) > 0) by (nonlinear_arith)
                        requires
                            0 <= k,
                            k < (self.width as int) * (self.height as int),
                            0 <= (self.width as int),
                            0 <= (self.height as int),
                    ;
                    lemma_mod_bound(k, w);
                    lemma_fundamental_div_mod(k, w);
                }
                assert(self.spec_draw_upto(*colors, fb0, u, y as int, x1 as int)
                    =~= self.spec_draw_upto(*colors, fb0, u, y as int + 1, x0 as int));
            }
            y += 1;
        }
        proof {
            assert forall|k: int| 0 <= k < fb0.len() implies self.spec_draw_upto(
                *colors,
                fb0,
                u,
                self.height as int,
                x0 as int,
            )[k] == spec_draw_one(*self, *colors, fb0, u)[k] by {
                let w = self.width as int;
                assert((self.width as int) > 0) by (nonlinear_arith)
                    requires
                        0 <= k,
                        k < (self.width as int) * (self.height as int),
                        0 <= (self.width as int),
                        0 <= (self.height as int),
                ;
                lemma_mod_bound(k, w);
                lemma_fundamental_div_mod(k, w);
                assert(k / w < self.height as int) by (nonlinear_arith)
                    requires
                        0 <= k,
                        k < (self.width as int) * (self.height as int),
                        w == self.width as int,
                        w > 0,
                        k == w * (k / w) + (k % w),
                        0 <= k % w < w,
                ;
            }
            assert(self.spec_draw_upto(*colors, fb0, u, self.height as int, x0 as int)
                =~= spec_draw_one(*self, *colors, fb0, u));
        }
    }

    /// Draw a batch of visual updates, in order, into the frame buffer.
    pub fn draw(&self, changes: &Vec<ListUpdate>, colors: &ColorScheme, framebuffer: &mut Vec<u32>)
        requires
            self.wf(),
            forall|i: int| 0 <= i < changes@.len() ==> valid_update(*self, #[trigger] changes@[i]),
            old(framebuffer)@.len() == self.width * self.height,
        ensures
            final(framebuffer)@ == spec_draw(*self, *colors, old(framebuffer)@, changes@),
            final(framebuffer)@.len() == old(framebuffer)@.len(),
    {
        let ghost fb0 = framebuffer@;
        let mut ci: usize = 0;
        proof {
            assert(changes@.take(0) =~= Seq::<ListUpdate>::empty());
        }
        while ci < changes.len()
            invariant
                self.wf(),
                forall|i: int|
                    0 <= i < changes@.len() ==> valid_update(*self, #[trigger] changes@[i]),
                fb0.len() == self.width * self.height,
                ci <= changes@.len(),
                framebuffer@ == spec_draw(*self, *colors, fb0, changes@.take(ci as int)),
                framebuffer@.len() == fb0.len(),
            decreases changes@.len() - ci,
        {
            let u = changes[ci];
            self.draw_update(u, colors, framebuffer);
            proof {
                assert(changes@.take(ci as int + 1).drop_last() =~= changes@.take(ci as int));
                assert(changes@.take(ci as int + 1).last() == changes@[ci as int]);
            }
            ci += 1;
        }
        proof {
            assert(changes@.take(changes@.len() as int) =~= changes@);
        }
    }
}

} // verus!
