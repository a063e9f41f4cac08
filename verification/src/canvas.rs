//! A fixed-size grid of character cells supporting bounds-checked blits of
//! multi-line text, plus rectangular sub-region views that rebase the drawing
//! origin and enforce tighter bounds.

use vstd::prelude::*;
use vstd::string::StrSliceExecFns;

verus! {

/// Relies on `String::push`: appends the given character to the end of the string.
pub assume_specification[ std::string::String::push ](s: &mut String, c: char)
    ensures
        final(s)@ == old(s)@.push(c),
;

/// Why a draw request was rejected.
#[derive(Debug, PartialEq, Eq, Structural)]
pub enum DrawError {
    HorizontalOverflow,
    VerticalOverflow,
}

pub type DrawResult = Result<(), DrawError>;

/// A rectangle in cell coordinates.
#[derive(Debug, Clone, Copy)]
pub struct Rect {
    pub left: usize,
    pub top: usize,
    pub width: usize,
    pub height: usize,
}

impl Rect {
    /// The rectangle's extent does not overflow the address space.
    pub open spec fn wf(&self) -> bool {
        &&& self.left + self.width <= usize::MAX
        &&& self.top + self.height <= usize::MAX
    }

    pub open spec fn spec_right(&self) -> int {
        self.left + self.width
    }

    pub open spec fn spec_bottom(&self) -> int {
        self.top + self.height
    }

    /// `other` lies fully inside `self`.
    pub open spec fn spec_contains(&self, other: Rect) -> bool {
        &&& self.left <= other.left
        &&& other.left + other.width <= self.spec_right()
        &&& self.top <= other.top
        &&& other.top + other.height <= self.spec_bottom()
    }

    /// One past the rightmost column.
    pub fn right(&self) -> (r: usize)
        requires
            self.wf(),
        ensures
            r == self.spec_right(),
    {
        self.left + self.width
    }

    /// One past the bottom row.
    pub fn bottom(&self) -> (r: usize)
        requires
            self.wf(),
        ensures
            r == self.spec_bottom(),
    {
        self.top + self.height
    }

    /// Whether `rect` lies fully inside `self`.
    pub fn contains(&self, rect: &Rect) -> (r: bool)
        requires
            self.wf(),
            rect.wf(),
        ensures
            r == self.spec_contains(*rect),
    {
        self.left <= rect.left && rect.right() <= self.right() && self.top <= rect.top
            && rect.bottom() <= self.bottom()
    }
}

/// A grid of `height` rows of `width` spaces.
pub open spec fn blank_grid(width: int, height: int) -> Seq<Seq<char>> {
    Seq::new(height as nat, |r: int| Seq::new(width as nat, |c: int| ' '))
}

/// Every row of `rows`, drawn starting at column `x`, stays within `width`.
pub open spec fn rows_fit_h(rows: Seq<Seq<char>>, x: int, width: int) -> bool {
    forall|i: int| 0 <= i < rows.len() ==> x + #[trigger] rows[i].len() <= width
}

/// The outcome a draw of `rows` at `(x, y)` must have on a `width` by `height`
/// surface: the horizontal check comes first, then the vertical one.
pub open spec fn draw_result(rows: Seq<Seq<char>>, x: int, y: int, width: int, height: int) -> DrawResult {
    if !rows_fit_h(rows, x, width) {
        Err(DrawError::HorizontalOverflow)
    } else if y + rows.len() > height {
        Err(DrawError::VerticalOverflow)
    } else {
        Ok(())
    }
}

/// `grid` with `rows` written at `(left, top)`: row `i` of `rows` overwrites
/// the cells of grid row `top + i` starting at column `left`, for as many
/// characters as it contains. Writes outside the grid are dropped.
pub open spec fn blit(grid: Seq<Seq<char>>, left: int, top: int, rows: Seq<Seq<char>>) -> Seq<
    Seq<char>,
> {
    Seq::new(
        grid.len(),
        |r: int|
            Seq::new(
                grid[r].len(),
                |c: int|
                    if top <= r < top + rows.len() && left <= c < left + rows[r - top].len() {
                        rows[r - top][c - left]
                    } else {
                        grid[r][c]
                    },
            ),
    )
}

/// How a draw of `rows` at `(x, y)` into the sub-rectangle `b` of a canvas
/// relates the canvas contents before (`g0`) and after (`g1`).
pub open spec fn draw_post(
    g0: Seq<Seq<char>>,
    g1: Seq<Seq<char>>,
    b: Rect,
    x: int,
    y: int,
    rows: Seq<Seq<char>>,
) -> bool {
    if draw_result(rows, x, y, b.width as int, b.height as int) is Ok {
        g1 == blit(g0, b.left + x, b.top + y, rows)
    } else {
        g1 == g0
    }
}

/// The rows of `grid` joined by single newlines, with no trailing newline.
pub open spec fn join_rows(grid: Seq<Seq<char>>) -> Seq<char>
    decreases grid.len(),
{
    if grid.len() == 0 {
        Seq::empty()
    } else if grid.len() == 1 {
        grid[0]
    } else {
        join_rows(grid.drop_last()) + seq!['\n'] + grid.last()
    }
}

/// A drawing surface: a grid of character cells that multi-line text can be
/// blitted onto.
pub trait Draw: Sized {
    /// The surface's structural invariant.
    spec fn inv(&self) -> bool;

    /// The current cell contents.
    spec fn grid(&self) -> Seq<Seq<char>>;

    /// The surface's bounds.
    spec fn bounds_spec(&self) -> Rect;

    /// Blit `rows` at `(left, top)`: row `i` overwrites the cells starting at
    /// `(left, top + i)` for as many characters as it contains. The write is
    /// validated first and rejected whole on overflow.
    fn draw(&mut self, left: usize, top: usize, rows: &[&str]) -> (res: DrawResult)
        requires
            old(self).inv(),
            rows@.len() >= 1,
            left <= old(self).bounds_spec().width,
            top <= old(self).bounds_spec().height,
        ensures
            final(self).inv(),
            final(self).bounds_spec() == old(self).bounds_spec(),
            res == draw_result(
                rows.deep_view(),
                left as int,
                top as int,
                old(self).bounds_spec().width as int,
                old(self).bounds_spec().height as int,
            ),
            draw_post(
                old(self).grid(),
                final(self).grid(),
                old(self).bounds_spec(),
                left as int,
                top as int,
                rows.deep_view(),
            ),
    ;
}

/// A canvas: a `height` by `width` grid of character cells, initially spaces.
pub struct TextCanvas {
    bounds: Rect,
    buffer: Vec<Vec<char>>,
}

/// A rectangular view into a canvas. Draws through a region are offset by the
/// region's origin and bounds-checked against the region's size.
pub struct TextCanvasRegion {
    bounds: Rect,
}

impl TextCanvas {
    /// Allocate a canvas of `height` rows by `width` columns, filled with spaces.
    pub fn new(width: usize, height: usize) -> (c: TextCanvas)
        ensures
            c.inv(),
            c.bounds_spec() == (Rect { left: 0, top: 0, width, height }),
            c.grid() == blank_grid(width as int, height as int),
    {
        let mut buffer: Vec<Vec<char>> = Vec::new();
        for r in 0..height
            invariant
                buffer@.len() == r,
                forall|i: int| 0 <= i < r ==> (#[trigger] buffer@[i])@ == Seq::new(
                    width as nat,
                    |c: int| ' ',
                ),
        {
            let mut row: Vec<char> = Vec::new();
            for c in 0..width
                invariant
                    row@ =~= Seq::new(c as nat, |i: int| ' '),
            {
                row.push(' ');
            }
            proof {
                assert(row@ =~= Seq::new(width as nat, |i: int| ' '));
            }
            buffer.push(row);
        }
        let c = TextCanvas { bounds: Rect { left: 0, top: 0, width, height }, buffer };
        proof {
            assert(c.grid() =~~= blank_grid(width as int, height as int));
        }
        c
    }

    /// The sub-rectangle `[left, left + width) x [top, top + height)` as a
    /// region; it must lie fully inside the canvas.
    pub fn region(&self, left: usize, top: usize, width: usize, height: usize) -> (r:
        TextCanvasRegion)
        requires
            self.inv(),
            left + width <= self.bounds_spec().width,
            top + height <= self.bounds_spec().height,
        ensures
            r.bounds_spec() == (Rect { left, top, width, height }),
    {
        TextCanvasRegion { bounds: Rect { left, top, width, height } }
    }

    /// The canvas contents: rows joined by single newlines, no trailing newline.
    pub fn content(&self) -> (s: String)
        requires
            self.inv(),
        ensures
            s@ == join_rows(self.grid()),
    {
        let mut s = String::new();
        let h = self.buffer.len();
        for r in 0..h
            invariant
                self.inv(),
                h == self.buffer@.len(),
                s@ == join_rows(self.grid().take(r as int)),
        {
            proof {
                assert(self.grid().take(r + 1).drop_last() =~= self.grid().take(r as int));
                assert(self.grid().take(r + 1).last() == self.grid()[r as int]);
            }
            if r > 0 {
                s.push('\n');
            }
            let ghost base = s@;
            let row = &self.buffer[r];
            let n = row.len();
            for c in 0..n
                invariant
                    n == row@.len(),
                    row@ == self.grid()[r as int],
                    0 <= r < self.grid().len(),
                    s@ == base + self.grid()[r as int].take(c as int),
            {
                let ch = row[c];
                s.push(ch);
                proof {
                    assert(self.grid()[r as int].take(c + 1) =~= self.grid()[r as int].take(
                        c as int,
                    ).push(row@[c as int]));
                }
            }
            proof {
                assert(self.grid()[r as int].take(n as int) =~= self.grid()[r as int]);
            }
        }
        proof {
            assert(self.grid().take(h as int) =~= self.grid());
        }
        s
    }

    /// Write one character into the cell at row `r`, column `c`.
    fn put(&mut self, r: usize, c: usize, ch: char)
        requires
            old(self).inv(),
            r < old(self).grid().len(),
            c < old(self).grid()[r as int].len(),
        ensures
            final(self).inv(),
            final(self).bounds_spec() == old(self).bounds_spec(),
            final(self).grid() == old(self).grid().update(
                r as int,
                old(self).grid()[r as int].update(c as int, ch),
            ),
    {
        let row = &mut self.buffer[r];
        row[c] = ch;
        proof {
            assert(self.grid() =~~= old(self).grid().update(
                r as int,
                old(self).grid()[r as int].update(c as int, ch),
            ));
        }
    }

    /// Draw `rows` at `(x, y)` relative to the sub-rectangle `b`, which must
    /// lie inside the canvas; overflow is checked against `b`'s size.
    fn draw_in(&mut self, b: Rect, x: usize, y: usize, rows: &[&str]) -> (res: DrawResult)
        requires
            old(self).inv(),
            rows@.len() >= 1,
            x <= b.width,
            y <= b.height,
            b.wf(),
            old(self).bounds_spec().spec_contains(b),
        ensures
            final(self).inv(),
            final(self).bounds_spec() == old(self).bounds_spec(),
            res == draw_result(rows.deep_view(), x as int, y as int, b.width as int, b.height as int),
            draw_post(old(self).grid(), final(self).grid(), b, x as int, y as int, rows.deep_view()),
    {
        let ghost drows = rows.deep_view();
        let n = rows.len();
        let mut maxlen: usize = 0;
        for i in 0..n
            invariant
                n == rows@.len(),
                drows == rows.deep_view(),
                forall|j: int| 0 <= j < i ==> #[trigger] drows[j].len() <= maxlen,
                maxlen == 0 || exists|j: int| 0 <= j < i && #[trigger] drows[j].len() == maxlen,
        {
            let l = rows[i].unicode_len();
            proof {
                assert(drows[i as int].len() == l);
            }
            if l > maxlen {
                maxlen = l;
            }
        }
        if maxlen > b.width - x {
            proof {
                assert(!rows_fit_h(drows, x as int, b.width as int));
            }
            return Err(DrawError::HorizontalOverflow);
        }
        if n > b.height - y {
            return Err(DrawError::VerticalOverflow);
        }
        proof {
            assert(rows_fit_h(drows, x as int, b.width as int));
        }
        let ghost g0 = self.grid();
        let left = b.left + x;
        let top = b.top + y;
        for i in 0..n
            invariant
                n == rows@.len(),
                drows == rows.deep_view(),
                rows_fit_h(drows, x as int, b.width as int),
                y + n <= b.height,
                b.wf(),
                old(self).bounds_spec().spec_contains(b),
                left == b.left + x,
                top == b.top + y,
                self.inv(),
                self.bounds_spec() == old(self).bounds_spec(),
                g0 == old(self).grid(),
                self.grid().len() == g0.len(),
                forall|r: int| 0 <= r < g0.len() ==> #[trigger] self.grid()[r].len() == g0[r].len(),
                g0.len() == old(self).bounds_spec().height,
                forall|r: int| 0 <= r < g0.len() ==> #[trigger] g0[r].len() == old(
                    self,
                ).bounds_spec().width,
                forall|r: int, c: int|
                    0 <= r < g0.len() && 0 <= c < g0[r].len() ==> #[trigger] self.grid()[r][c] == (
                    if top <= r < top + i && left <= c < left + drows[r - top].len() {
                        drows[r - top][c - left]
                    } else {
                        g0[r][c]
                    }),
        {
            let row = rows[i];
            let len = row.unicode_len();
            for j in 0..len
                invariant
                    len == drows[i as int].len(),
                    row@ == drows[i as int],
                    0 <= i < n,
                    n == rows@.len(),
                    drows == rows.deep_view(),
                    rows_fit_h(drows, x as int, b.width as int),
                    y + n <= b.height,
                    b.wf(),
                    old(self).bounds_spec().spec_contains(b),
                    left == b.left + x,
                    top == b.top + y,
                    self.inv(),
                    self.bounds_spec() == old(self).bounds_spec(),
                    g0 == old(self).grid(),
                    self.grid().len() == g0.len(),
                    forall|r: int| 0 <= r < g0.len() ==> #[trigger] self.grid()[r].len()
                        == g0[r].len(),
                    g0.len() == old(self).bounds_spec().height,
                    forall|r: int| 0 <= r < g0.len() ==> #[trigger] g0[r].len() == old(
                        self,
                    ).bounds_spec().width,
                    forall|r: int, c: int|
                        0 <= r < g0.len() && 0 <= c < g0[r].len() ==> #[trigger] self.grid()[r][c]
                            == (if top <= r < top + i && left <= c < left + drows[r - top].len() {
                            drows[r - top][c - left]
                        } else if r == top + i && left <= c < left + j {
                            drows[i as int][c - left]
                        } else {
                            g0[r][c]
                        }),
            {
                let ch = row.get_char(j);
                self.put(top + i, left + j, ch);
            }
        }
        proof {
            assert(self.grid() =~~= blit(g0, left as int, top as int, drows));
        }
        Ok(())
    }
}

impl Draw for TextCanvas {
    closed spec fn inv(&self) -> bool {
        &&& self.bounds.left == 0
        &&& self.bounds.top == 0
        &&& self.bounds.wf()
        &&& self.buffer@.len() == self.bounds.height
        &&& forall|r: int| 0 <= r < self.buffer@.len() ==> (#[trigger] self.buffer@[r])@.len()
            == self.bounds.width
    }

    closed spec fn grid(&self) -> Seq<Seq<char>> {
        Seq::new(self.buffer@.len(), |r: int| self.buffer@[r]@)
    }

    closed spec fn bounds_spec(&self) -> Rect {
        self.bounds
    }

    fn draw(&mut self, left: usize, top: usize, rows: &[&str]) -> (res: DrawResult) {
        let b = Rect { left: 0, top: 0, width: self.bounds.width, height: self.bounds.height };
        self.draw_in(b, left, top, rows)
    }
}

impl TextCanvasRegion {
    /// The region's rectangle within its parent canvas.
    pub closed spec fn bounds_spec(&self) -> Rect {
        self.bounds
    }

    /// Blit `rows` at `(left, top)` relative to the region's origin, onto the
    /// parent canvas; overflow is checked against the region's size.
    pub fn draw(&self, canvas: &mut TextCanvas, left: usize, top: usize, rows: &[&str]) -> (res:
        DrawResult)
        requires
            old(canvas).inv(),
            rows@.len() >= 1,
            left <= self.bounds_spec().width,
            top <= self.bounds_spec().height,
            self.bounds_spec().wf(),
            old(canvas).bounds_spec().spec_contains(self.bounds_spec()),
        ensures
            final(canvas).inv(),
            final(canvas).bounds_spec() == old(canvas).bounds_spec(),
            res == draw_result(
                rows.deep_view(),
                left as int,
                top as int,
                self.bounds_spec().width as int,
                self.bounds_spec().height as int,
            ),
            draw_post(
                old(canvas).grid(),
                final(canvas).grid(),
                self.bounds_spec(),
                left as int,
                top as int,
                rows.deep_view(),
            ),
    {
        canvas.draw_in(self.bounds, left, top, rows)
    }
}

} // verus!
