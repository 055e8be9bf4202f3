use vstd::prelude::*;
use crate::color::{Color, packed};
use crate::raster::Fragment;

verus! {

/// The depth of an empty pixel: farther than any surface.
pub const FAR: i64 = 9223372036854775807;

/// One depth-tested write: a color at a pixel, at a depth.
pub struct PixelWrite {
    pub x: int,
    pub y: int,
    pub depth: int,
    pub color: u32,
}

/// The abstract state of a framebuffer: its size, and the color and the
/// depth of each pixel in row-major order.
pub struct FrameModel {
    pub width: int,
    pub height: int,
    pub background: u32,
    pub colors: Seq<u32>,
    pub depths: Seq<i64>,
}

/// The row-major index of pixel (`x`, `y`).
pub open spec fn index_of(width: int, x: int, y: int) -> int {
    y * width + x
}

pub open spec fn in_bounds(m: FrameModel, x: int, y: int) -> bool {
    0 <= x < m.width && 0 <= y < m.height
}

/// Whether a write at (`x`, `y`, `depth`) passes the bounds and depth tests.
pub open spec fn passes(m: FrameModel, x: int, y: int, depth: int) -> bool {
    in_bounds(m, x, y) && depth < m.depths[index_of(m.width, x, y)]
}

/// The state after one write: the pixel takes the color and the depth when
/// the write passes; otherwise nothing changes.
pub open spec fn after_point(m: FrameModel, x: int, y: int, depth: int, color: u32) -> FrameModel {
    if passes(m, x, y, depth) {
        let i = index_of(m.width, x, y);
        FrameModel { colors: m.colors.update(i, color), depths: m.depths.update(i, depth as i64), ..m }
    } else {
        m
    }
}

/// The state after a sequence of writes made in order.
pub open spec fn after_writes(m: FrameModel, ws: Seq<PixelWrite>) -> FrameModel
    decreases ws.len(),
{
    if ws.len() == 0 {
        m
    } else {
        let w = ws.last();
        after_point(after_writes(m, ws.drop_last()), w.x, w.y, w.depth, w.color)
    }
}

/// The state after a clear: every pixel has the background color and is empty.
pub open spec fn cleared(m: FrameModel) -> FrameModel {
    FrameModel {
        colors: Seq::new(m.colors.len(), |i: int| m.background),
        depths: Seq::new(m.depths.len(), |i: int| FAR),
        ..m
    }
}

/// The writes that drawing fragments in their colors makes.
pub open spec fn fragment_writes(frags: Seq<Fragment>, colors: Seq<Color>) -> Seq<PixelWrite> {
    Seq::new(frags.len(), |i: int| PixelWrite {
        x: frags[i].x as int,
        y: frags[i].y as int,
        depth: frags[i].depth as int,
        color: packed(colors[i].r as int, colors[i].g as int, colors[i].b as int) as u32,
    })
}

/// A color buffer of packed `0xRRGGBB` values with a depth buffer beside it.
pub struct Framebuffer {
    pub width: usize,
    pub height: usize,
    pub buffer: Vec<u32>,
    pub zbuffer: Vec<i64>,
    pub background_color: u32,
}

impl View for Framebuffer {
    type V = FrameModel;

    open spec fn view(&self) -> FrameModel {
        FrameModel {
            width: self.width as int,
            height: self.height as int,
            background: self.background_color,
            colors: self.buffer@,
            depths: self.zbuffer@,
        }
    }
}

impl Framebuffer {
    /// Both buffers hold one entry per pixel.
    pub open spec fn wf(&self) -> bool {
        self.buffer.len() == self.width * self.height && self.zbuffer.len() == self.width * self.height
    }

    /// A framebuffer of the given size, every pixel black and empty.
    pub fn new(width: usize, height: usize) -> (fb: Framebuffer)
        requires
            width * height <= usize::MAX,
        ensures
            fb.wf(),
            fb.width == width,
            fb.height == height,
            fb.background_color == 0,
            fb@ == cleared(fb@),
    {
        let n: usize = width * height;
        let mut fb = Framebuffer {
            width,
            height,
            buffer: Vec::new(),
            zbuffer: Vec::new(),
            background_color: 0,
        };
        let mut i: usize = 0;
        while i < n
            invariant
                i <= n,
                n == width * height,
                fb.width == width,
                fb.height == height,
                fb.background_color == 0,
                fb.buffer@ == Seq::new(i as nat, |j: int| 0u32),
                fb.zbuffer@ == Seq::new(i as nat, |j: int| FAR),
            decreases n - i,
        {
            fb.buffer.push(0);
            fb.zbuffer.push(FAR);
            i = i + 1;
            assert(fb.buffer@ =~= Seq::new(i as nat, |j: int| 0u32));
            assert(fb.zbuffer@ =~= Seq::new(i as nat, |j: int| FAR));
        }
        assert(fb@.colors =~= cleared(fb@).colors);
        assert(fb@.depths =~= cleared(fb@).depths);
        fb
    }

    /// Sets the color that `clear` fills the buffer with.
    pub fn set_background_color(&mut self, color: u32)
        ensures
            final(self)@ == (FrameModel { background: color, ..old(self)@ }),
    {
        self.background_color = color;
    }

    /// Resets every pixel to the background color and empty depth.
    pub fn clear(&mut self)
        requires
            old(self).wf(),
        ensures
            final(self).wf(),
            final(self)@ == cleared(old(self)@),
    {
        let n = self.buffer.len();
        let ghost start = self@;
        let mut i: usize = 0;
        while i < n
            invariant
                i <= n,
                self.wf(),
                n == self.buffer.len(),
                self.width == start.width && self.height == start.height,
                self.background_color == start.background,
                self.buffer.len() == start.colors.len(),
                self.zbuffer.len() == start.depths.len(),
                forall|j: int| 0 <= j < i ==> self.buffer@[j] == start.background && self.zbuffer@[j] == FAR,
            decreases n - i,
        {
            self.buffer.set(i, self.background_color);
            self.zbuffer.set(i, FAR);
            i = i + 1;
        }
        assert(self@.colors =~= cleared(start).colors);
        assert(self@.depths =~= cleared(start).depths);
    }

    /// Writes `color` at (`x`, `y`) when the pixel is inside the buffer and
    /// `depth` is nearer than what it holds, and records the new depth.
    /// Returns whether the write took place.
    pub fn point(&mut self, x: usize, y: usize, depth: i64, color: u32) -> (written: bool)
        requires
            old(self).wf(),
        ensures
            final(self).wf(),
            written == passes(old(self)@, x as int, y as int, depth as int),
            final(self)@ == after_point(old(self)@, x as int, y as int, depth as int, color),
    {
        if x < self.width && y < self.height {
            assert(y * self.width + x < self.width * self.height) by (nonlinear_arith)
                requires
                    x < self.width,
                    y < self.height,
            ;
            let i: usize = y * self.width + x;
            if depth < self.zbuffer[i] {
                self.buffer.set(i, color);
                self.zbuffer.set(i, depth);
                return true;
            }
        }
        false
    }

    /// Writes each fragment in turn, in the color beside it, through the
    /// depth test.
    pub fn draw_fragments(&mut self, frags: &Vec<Fragment>, colors: &Vec<Color>)
        requires
            old(self).wf(),
            frags.len() == colors.len(),
        ensures
            final(self).wf(),
            final(self)@ == after_writes(old(self)@, fragment_writes(frags@, colors@)),
    {
        let ghost start = self@;
        let ghost ws = fragment_writes(frags@, colors@);
        let mut i: usize = 0;
        while i < frags.len()
            invariant
                i <= frags.len(),
                frags.len() == colors.len(),
                ws == fragment_writes(frags@, colors@),
                self.wf(),
                self@ == after_writes(start, ws.take(i as int)),
            decreases frags.len() - i,
        {
            let f = frags[i];
            let hex = colors[i].to_hex();
            assert(ws.take(i + 1).drop_last() =~= ws.take(i as int));
            if f.x < self.width as u64 && f.y < self.height as u64 {
                self.point(f.x as usize, f.y as usize, f.depth, hex);
            }
            i = i + 1;
        }
        assert(ws.take(frags.len() as int) =~= ws);
    }
}

/// A write that passes the depth test against a nearer-or-equal write at
/// the same pixel wins in either order: with `d1 < d2`, writing `d2` then
/// `d1`, or `d1` then `d2`, leaves the color of the `d1` write.
pub proof fn lemma_nearer_write_wins(m: FrameModel, x: int, y: int, d1: int, c1: u32, d2: int, c2: u32)
    requires
        m.colors.len() == m.width * m.height,
        m.depths.len() == m.width * m.height,
        in_bounds(m, x, y),
        d1 < d2,
        d1 < m.depths[index_of(m.width, x, y)],
        i64::MIN <= d1,
        d2 <= i64::MAX,
    ensures
        after_point(after_point(m, x, y, d2, c2), x, y, d1, c1).colors[index_of(m.width, x, y)] == c1,
        after_point(after_point(m, x, y, d1, c1), x, y, d2, c2).colors[index_of(m.width, x, y)] == c1,
{
    assert(0 <= index_of(m.width, x, y) < m.width * m.height) by (nonlinear_arith)
        requires
            0 <= x < m.width,
            0 <= y < m.height,
    ;
}

/// Within a frame depths only decrease: a write never makes any pixel's depth
/// farther, whether it passes or not.
pub proof fn lemma_point_never_raises_depth(m: FrameModel, x: int, y: int, depth: int, color: u32)
    requires
        m.colors.len() == m.width * m.height,
        m.depths.len() == m.width * m.height,
        i64::MIN <= depth <= i64::MAX,
    ensures
        after_point(m, x, y, depth, color).depths.len() == m.depths.len(),
        forall|i: int|
            0 <= i < m.depths.len() ==> #[trigger] after_point(m, x, y, depth, color).depths[i] <= m.depths[i],
{
    if passes(m, x, y, depth) {
        lemma_index_in_range(m.width, m.height, x, y);
    }
}

/// Writes made in order leave the depth of every pixel that none of them
/// targets unchanged.
pub proof fn lemma_untouched_depth(m: FrameModel, ws: Seq<PixelWrite>, x: int, y: int)
    requires
        m.colors.len() == m.width * m.height,
        m.depths.len() == m.width * m.height,
        in_bounds(m, x, y),
        forall|k: int| 0 <= k < ws.len() ==> !((#[trigger] ws[k]).x == x && ws[k].y == y),
    ensures
        after_writes(m, ws).depths[index_of(m.width, x, y)] == m.depths[index_of(m.width, x, y)],
        after_writes(m, ws).depths.len() == m.depths.len(),
        after_writes(m, ws).colors.len() == m.colors.len(),
        after_writes(m, ws).width == m.width,
        after_writes(m, ws).height == m.height,
    decreases ws.len(),
{
    if ws.len() > 0 {
        let rest = ws.drop_last();
        assert forall|k: int| 0 <= k < rest.len() implies !((#[trigger] rest[k]).x == x && rest[k].y == y) by {
            assert(rest[k] == ws[k]);
        }
        lemma_untouched_depth(m, rest, x, y);
        let w = ws.last();
        assert(w == ws[ws.len() - 1]);
        let p = after_writes(m, rest);
        lemma_index_in_range(m.width, m.height, x, y);
        if passes(p, w.x, w.y, w.depth) {
            lemma_index_in_range(m.width, m.height, w.x, w.y);
            lemma_index_distinct(m.width, m.height, x, y, w.x, w.y);
        }
    }
}

proof fn lemma_index_in_range(width: int, height: int, x: int, y: int)
    requires
        0 <= x < width,
        0 <= y < height,
    ensures
        0 <= index_of(width, x, y) < width * height,
{
    assert(0 <= y * width + x < width * height) by (nonlinear_arith)
        requires
            0 <= x < width,
            0 <= y < height,
    ;
}

proof fn lemma_index_distinct(width: int, height: int, x1: int, y1: int, x2: int, y2: int)
    requires
        0 <= x1 < width,
        0 <= y1 < height,
        0 <= x2 < width,
        0 <= y2 < height,
        !(x1 == x2 && y1 == y2),
    ensures
        index_of(width, x1, y1) != index_of(width, x2, y2),
{
    if y1 == y2 {
    } else if y1 < y2 {
        assert(y1 * width + width <= y2 * width) by (nonlinear_arith)
            requires
                y1 < y2,
                width > 0,
        ;
    } else {
        assert(y2 * width + width <= y1 * width) by (nonlinear_arith)
            requires
                y2 < y1,
                width > 0,
        ;
    }
}

/// After a clear, the first write to each pixel at a depth nearer than the
/// empty depth always passes, however many writes to other pixels came
/// before it.
pub proof fn lemma_first_write_after_clear_passes(m: FrameModel, ws: Seq<PixelWrite>, j: int)
    requires
        m.colors.len() == m.width * m.height,
        m.depths.len() == m.width * m.height,
        0 <= j < ws.len(),
        in_bounds(m, ws[j].x, ws[j].y),
        ws[j].depth < FAR,
        forall|k: int| 0 <= k < j ==> !((#[trigger] ws[k]).x == ws[j].x && ws[k].y == ws[j].y),
    ensures
        passes(after_writes(cleared(m), ws.take(j)), ws[j].x, ws[j].y, ws[j].depth),
{
    let c = cleared(m);
    let pre = ws.take(j);
    assert forall|k: int| 0 <= k < pre.len() implies !((#[trigger] pre[k]).x == ws[j].x && pre[k].y == ws[j].y) by {
        assert(pre[k] == ws[k]);
    }
    lemma_untouched_depth(c, pre, ws[j].x, ws[j].y);
    assert(0 <= index_of(m.width, ws[j].x, ws[j].y) < m.width * m.height) by (nonlinear_arith)
        requires
            0 <= ws[j].x < m.width,
            0 <= ws[j].y < m.height,
    ;
}

} // verus!
