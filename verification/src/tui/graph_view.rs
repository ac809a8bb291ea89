//! Drawing the dependency graph as text: node boxes and edges on a grid of cells.

use vstd::prelude::*;
use crate::graph::{Layer, graph_nodes, graph_edges, graph_node, graph_node_count, graph_raw_edges, edges_within};
use crate::graph::analysis::cycle_views;
use crate::tui::app::{App, cycle_files, distinct_cycle_files};
use crate::tui::layout::GraphLayout;
use crate::text::{chars_of, string_from_chars, sub_vec, append_all, views};

verus! {

broadcast use vstd::string::group_string_axioms;

/// A name cut to `max` characters for a node box: whole if it fits, "..." alone when `max`
/// leaves no room for more, else its first `max - 3` characters and "...".
pub open spec fn fitted(name: Seq<char>, max: nat) -> Seq<char> {
    if name.len() <= max {
        name
    } else if max <= 3 {
        "..."@
    } else {
        name.take(max - 3) + "..."@
    }
}

/// Truncate a filename to fit within the given width (in characters); see `fitted`.
pub fn truncate_filename(name: &str, max_width: usize) -> (r: String)
    ensures
        r@ == fitted(name@, max_width as nat),
{
    let chars = chars_of(name);
    if chars.len() <= max_width {
        string_from_chars(&chars)
    } else if max_width <= 3 {
        crate::text::str_to_string("...")
    } else {
        let mut cut = sub_vec(&chars, 0, max_width - 3);
        let dots = chars_of("...");
        append_all(&mut cut, &dots);
        assert(cut@ =~= name@.take(max_width - 3) + "..."@);
        string_from_chars(&cut)
    }
}

/// With room for the ellipsis, a name fitted to a box never exceeds its width; without it,
/// a name that does not fit becomes the ellipsis alone.
pub proof fn law_fitted_fits(name: Seq<char>, max: nat)
    ensures
        max >= 3 ==> fitted(name, max).len() <= max,
        max < 3 && name.len() > max ==> fitted(name, max) == "..."@,
{
    reveal_strlit("...");
}

// ---------------------------------------------------------------------------
// Cells
// ---------------------------------------------------------------------------

/// The colors of the graph view; `Other` stands for any color the view does not use.
#[derive(Debug, Clone, Copy, PartialEq, Eq, Structural)]
pub enum Color {
    Reset,
    Black,
    Red,
    Green,
    Yellow,
    Blue,
    Magenta,
    Cyan,
    Gray,
    DarkGray,
    White,
    Other,
}

/// One character cell: its symbol, colors and whether it is bold.
#[derive(Debug, Clone, Copy, PartialEq, Eq, Structural)]
pub struct Cell {
    pub symbol: char,
    pub fg: Color,
    pub bg: Color,
    pub bold: bool,
}

/// A style to paint with: a foreground, perhaps a background, and perhaps bold (added to
/// what the cell has, never taken away).
#[derive(Debug, Clone, Copy, PartialEq, Eq, Structural)]
pub struct Paint {
    pub fg: Color,
    pub bg: Option<Color>,
    pub bold: bool,
}

/// A cell given a symbol and painted with `p`.
pub open spec fn painted(c: Cell, symbol: char, p: Paint) -> Cell {
    Cell {
        symbol,
        fg: p.fg,
        bg: match p.bg {
            Some(b) => b,
            None => c.bg,
        },
        bold: c.bold || p.bold,
    }
}

fn paint(c: Cell, symbol: char, p: Paint) -> (r: Cell)
    ensures
        r == painted(c, symbol, p),
{
    Cell {
        symbol,
        fg: p.fg,
        bg: match p.bg {
            Some(b) => b,
            None => c.bg,
        },
        bold: c.bold || p.bold,
    }
}

/// A grid of cells, `height` rows of `width` cells, on which the graph is drawn.
pub struct Canvas {
    pub width: u16,
    pub height: u16,
    pub rows: Vec<Vec<Cell>>,
}

impl Canvas {
    /// The cells, row by row.
    pub open spec fn grid(&self) -> Seq<Seq<Cell>> {
        self.rows@.map_values(|r: Vec<Cell>| r@)
    }

    /// Every row holds `width` cells, and there are `height` rows.
    pub open spec fn wf(&self) -> bool {
        &&& self.rows@.len() == self.height
        &&& forall|r: int| 0 <= r < self.rows@.len() ==> (#[trigger] self.rows@[r])@.len() == self.width
    }

    /// A canvas of blank cells: spaces with the default colors.
    pub fn blank(width: u16, height: u16) -> (c: Canvas)
        ensures
            c.wf(),
            c.width == width,
            c.height == height,
            forall|r: int, k: int| 0 <= r < height && 0 <= k < width ==> #[trigger] c.grid()[r][k] == (Cell { symbol: ' ', fg: Color::Reset, bg: Color::Reset, bold: false }),
    {
        let cell = Cell { symbol: ' ', fg: Color::Reset, bg: Color::Reset, bold: false };
        let mut rows: Vec<Vec<Cell>> = Vec::new();
        let mut r: u16 = 0;
        while r < height
            invariant
                r <= height,
                rows@.len() == r,
                forall|j: int| 0 <= j < r ==> (#[trigger] rows@[j])@.len() == width,
                forall|j: int, k: int| 0 <= j < r && 0 <= k < width ==> #[trigger] rows@[j]@[k] == cell,
            decreases height - r,
        {
            let mut row: Vec<Cell> = Vec::new();
            let mut k: u16 = 0;
            while k < width
                invariant
                    k <= width,
                    row@.len() == k,
                    forall|j: int| 0 <= j < k ==> #[trigger] row@[j] == cell,
                decreases width - k,
            {
                row.push(cell);
                k += 1;
            }
            rows.push(row);
            r += 1;
        }
        Canvas { width, height, rows }
    }

    /// The cell in column `x` of row `y`.
    pub fn cell(&self, x: u16, y: u16) -> (c: Cell)
        requires
            self.wf(),
            x < self.width,
            y < self.height,
        ensures
            c == self.grid()[y as int][x as int],
    {
        assert(self.grid()[y as int] == self.rows@[y as int]@);
        self.rows[y as usize][x as usize]
    }

    /// Replace the cell in column `x` of row `y`.
    fn put(&mut self, x: u16, y: u16, c: Cell)
        requires
            old(self).wf(),
            x < old(self).width,
            y < old(self).height,
        ensures
            final(self).wf(),
            final(self).width == old(self).width,
            final(self).height == old(self).height,
            final(self).grid() == old(self).grid().update(y as int, old(self).grid()[y as int].update(x as int, c)),
    {
        let old_row = &self.rows[y as usize];
        let mut row: Vec<Cell> = Vec::new();
        let mut k: usize = 0;
        while k < old_row.len()
            invariant
                k <= old_row@.len(),
                row@ == update_if_in(old_row@.take(k as int), x as int, c),
            decreases old_row.len() - k,
        {
            if k == x as usize {
                row.push(c);
            } else {
                row.push(old_row[k]);
            }
            k += 1;
            assert(row@ =~= update_if_in(old_row@.take(k as int), x as int, c));
        }
        assert(old_row@.take(old_row@.len() as int) =~= old_row@);
        let ghost g0 = self.grid();
        self.rows.set(y as usize, row);
        assert(self.grid() =~= g0.update(y as int, g0[y as int].update(x as int, c)));
    }
}

/// `s` with index `i` set to `v`, when `i` is an index of `s`.
pub open spec fn update_if_in<A>(s: Seq<A>, i: int, v: A) -> Seq<A> {
    if 0 <= i < s.len() {
        s.update(i, v)
    } else {
        s
    }
}

// ---------------------------------------------------------------------------
// Node boxes
// ---------------------------------------------------------------------------

/// The color of a layer.
pub open spec fn layer_color(layer: Layer) -> Color {
    match layer {
        Layer::Entry => Color::Magenta,
        Layer::App => Color::Cyan,
        Layer::Core => Color::Blue,
        Layer::Platform => Color::Green,
        Layer::Driver => Color::Yellow,
        Layer::Arch => Color::Red,
        Layer::Unknown => Color::Gray,
    }
}

fn color_of_layer(layer: Layer) -> (c: Color)
    ensures
        c == layer_color(layer),
{
    match layer {
        Layer::Entry => Color::Magenta,
        Layer::App => Color::Cyan,
        Layer::Core => Color::Blue,
        Layer::Platform => Color::Green,
        Layer::Driver => Color::Yellow,
        Layer::Arch => Color::Red,
        Layer::Unknown => Color::Gray,
    }
}

/// The border of a node box: red on a cycle, else yellow when selected, else its layer's
/// color; bold when selected.
pub open spec fn border_paint(layer: Layer, selected: bool, on_cycle: bool) -> Paint {
    Paint {
        fg: if on_cycle {
            Color::Red
        } else if selected {
            Color::Yellow
        } else {
            layer_color(layer)
        },
        bg: None,
        bold: selected,
    }
}

/// The text of a node box: black on yellow and bold when selected, else red on a cycle,
/// else white.
pub open spec fn text_paint(selected: bool, on_cycle: bool) -> Paint {
    if selected {
        Paint { fg: Color::Black, bg: Some(Color::Yellow), bold: true }
    } else if on_cycle {
        Paint { fg: Color::Red, bg: None, bold: false }
    } else {
        Paint { fg: Color::White, bg: None, bold: false }
    }
}

/// The cell at column `cx` of row `cy` once the box of a node at (`x`, `y`), `w` cells
/// wide and 3 high, is drawn over `c`: the top and bottom rows are borders with corners;
/// the middle row has side borders and, from column `x + 2`, the name `display` as far as
/// it stays left of the right border's inner column, then (when selected) spaces up to
/// there; the box's other cells, and the cells outside it, keep `c`.
pub open spec fn node_cell(c: Cell, cx: int, cy: int, x: int, y: int, w: int, display: Seq<char>, border: Paint, text: Paint, selected: bool) -> Cell {
    if cy == y || cy == y + 2 {
        if cx == x {
            painted(c, if cy == y { '\u{250C}' } else { '\u{2514}' }, border)
        } else if x < cx < x + w - 1 {
            painted(c, '\u{2500}', border)
        } else if cx == x + w - 1 {
            painted(c, if cy == y { '\u{2510}' } else { '\u{2518}' }, border)
        } else {
            c
        }
    } else if cy == y + 1 {
        if cx == x || cx == x + w - 1 {
            painted(c, '\u{2502}', border)
        } else if x + 2 <= cx < x + 2 + display.len() && cx < x + w - 2 {
            painted(c, display[cx - x - 2], text)
        } else if selected && x + 2 + display.len() <= cx < x + w - 2 {
            painted(c, ' ', text)
        } else {
            c
        }
    } else {
        c
    }
}

fn node_cell_exec(c: Cell, cx: u16, cy: u16, x: u16, y: u16, w: u16, display: &Vec<char>, border: Paint, text: Paint, selected: bool) -> (r: Cell)
    requires
        display@.len() <= u16::MAX,
    ensures
        r == node_cell(c, cx as int, cy as int, x as int, y as int, w as int, display@, border, text, selected),
{
    let (cx, cy, x, y, w): (u64, u64, u64, u64, u64) = (cx as u64, cy as u64, x as u64, y as u64, w as u64);
    let len: u64 = display.len() as u64;
    if cy == y || cy == y + 2 {
        if cx == x {
            paint(c, if cy == y { '\u{250C}' } else { '\u{2514}' }, border)
        } else if x < cx && cx + 1 < x + w {
            paint(c, '\u{2500}', border)
        } else if cx + 1 == x + w {
            paint(c, if cy == y { '\u{2510}' } else { '\u{2518}' }, border)
        } else {
            c
        }
    } else if cy == y + 1 {
        if cx == x || cx + 1 == x + w {
            paint(c, '\u{2502}', border)
        } else if x + 2 <= cx && cx < x + 2 + len && cx + 2 < x + w {
            paint(c, display[(cx - x - 2) as usize], text)
        } else if selected && x + 2 + len <= cx && cx + 2 < x + w {
            paint(c, ' ', text)
        } else {
            c
        }
    } else {
        c
    }
}

/// The grid `g` with the box of a node drawn; see `node_cell`.
pub open spec fn node_drawn(g: Seq<Seq<Cell>>, x: int, y: int, w: int, display: Seq<char>, border: Paint, text: Paint, selected: bool) -> Seq<Seq<Cell>> {
    Seq::new(g.len(), |b: int| Seq::new(g[b].len(), |a: int| node_cell(g[b][a], a, b, x, y, w, display, border, text, selected)))
}

/// Draw the box of a node at (`x`, `y`), `w` cells wide; see `node_cell`.
fn draw_box(canvas: &mut Canvas, x: u16, y: u16, w: u16, display: &Vec<char>, border: Paint, text: Paint, selected: bool)
    requires
        old(canvas).wf(),
        display@.len() <= u16::MAX,
        2 <= w,
        x + w <= u16::MAX,
        y + 2 <= u16::MAX,
    ensures
        final(canvas).wf(),
        final(canvas).width == old(canvas).width,
        final(canvas).height == old(canvas).height,
        final(canvas).grid() == node_drawn(old(canvas).grid(), x as int, y as int, w as int, display@, border, text, selected),
{
    let ghost g0 = canvas.grid();
    let ghost f = |c: Cell, a: int, b: int| node_cell(c, a, b, x as int, y as int, w as int, display@, border, text, selected);
    let mut r: u16 = 0;
    while r < 3
        invariant
            canvas.wf(),
            canvas.width == old(canvas).width,
            canvas.height == old(canvas).height,
            g0 == old(canvas).grid(),
            g0.len() == canvas.height,
            forall|b: int| 0 <= b < g0.len() ==> (#[trigger] g0[b]).len() == canvas.width,
            display@.len() <= u16::MAX,
            2 <= w,
            x + w <= u16::MAX,
            y + 2 <= u16::MAX,
            r <= 3,
            f == (|c: Cell, a: int, b: int| node_cell(c, a, b, x as int, y as int, w as int, display@, border, text, selected)),
            forall|b: int, a: int| 0 <= b < canvas.height && 0 <= a < canvas.width ==> #[trigger] canvas.grid()[b][a] == (
                if y <= b < y + r && x <= a < x + w { f(g0[b][a], a, b) } else { g0[b][a] }),
        decreases 3 - r,
    {
        let mut i: u16 = 0;
        while i < w
            invariant
                canvas.wf(),
                canvas.width == old(canvas).width,
                canvas.height == old(canvas).height,
                g0.len() == canvas.height,
                forall|b: int| 0 <= b < g0.len() ==> (#[trigger] g0[b]).len() == canvas.width,
                display@.len() <= u16::MAX,
                x + w <= u16::MAX,
                y + 2 <= u16::MAX,
                r < 3,
                i <= w,
                f == (|c: Cell, a: int, b: int| node_cell(c, a, b, x as int, y as int, w as int, display@, border, text, selected)),
                forall|b: int, a: int| 0 <= b < canvas.height && 0 <= a < canvas.width ==> #[trigger] canvas.grid()[b][a] == (
                    if (y <= b < y + r && x <= a < x + w) || (b == y + r && x <= a < x + i) { f(g0[b][a], a, b) } else { g0[b][a] }),
            decreases w - i,
        {
            let cx = x + i;
            let cy = y + r;
            if cx < canvas.width && cy < canvas.height {
                let old_cell = canvas.cell(cx, cy);
                assert(old_cell == g0[cy as int][cx as int]);
                let nc = node_cell_exec(old_cell, cx, cy, x, y, w, display, border, text, selected);
                let ghost before = canvas.grid();
                canvas.put(cx, cy, nc);
                assert forall|b: int, a: int| 0 <= b < canvas.height && 0 <= a < canvas.width implies #[trigger] canvas.grid()[b][a] == (
                    if (y <= b < y + r && x <= a < x + w) || (b == y + r && x <= a < x + i + 1) { f(g0[b][a], a, b) } else { g0[b][a] }) by {
                    if b == cy && a == cx {
                    } else {
                        assert(canvas.grid()[b][a] == before[b][a]);
                    }
                }
            }
            i += 1;
        }
        r += 1;
    }
    assert forall|b: int, a: int| 0 <= b < canvas.height && 0 <= a < canvas.width implies #[trigger] canvas.grid()[b][a] == f(g0[b][a], a, b) by {
        if !(y <= b < y + 3 && x <= a < x + w) {
            assert(f(g0[b][a], a, b) == g0[b][a]);
        }
    }
    let ghost target = node_drawn(g0, x as int, y as int, w as int, display@, border, text, selected);
    assert(canvas.grid().len() == target.len());
    assert forall|b: int| 0 <= b < target.len() implies #[trigger] canvas.grid()[b] =~= target[b] by {
        assert(canvas.grid()[b] == canvas.rows@[b]@);
    }
    assert(canvas.grid() =~= target);
}

// ---------------------------------------------------------------------------
// Edges
// ---------------------------------------------------------------------------

/// The color of an edge: red between two files on cycles, else dark gray.
pub open spec fn edge_color(on_cycle: bool) -> Color {
    if on_cycle {
        Color::Red
    } else {
        Color::DarkGray
    }
}

/// A cell given a symbol and a foreground color.
pub open spec fn colored(c: Cell, symbol: char, fg: Color) -> Cell {
    Cell { symbol, fg, ..c }
}

/// The cell at column `cx` of row `cy` once an edge from (`x1`, `y1`) to (`x2`, `y2`) is
/// drawn over `c`: along row `y1`, from `x1` to just before column `x2 - 1`, blank cells
/// become a horizontal line; in column `x2 - 1` the cell of row `y2` becomes an arrow and,
/// when the rows differ, the cell of row `y1` a corner and the blank cells between them a
/// vertical line. Every other cell keeps `c`.
pub open spec fn edge_cell(c: Cell, cx: int, cy: int, x1: int, y1: int, x2: int, y2: int, color: Color) -> Cell {
    if x2 > 0 && cx == x2 - 1 {
        if cy == y2 {
            colored(c, '\u{25B6}', color)
        } else if y1 != y2 && cy == y1 {
            colored(c, if y1 < y2 { '\u{2510}' } else { '\u{2514}' }, color)
        } else if y1 != y2 && (if y1 < y2 { y1 < cy < y2 } else { y2 < cy < y1 }) {
            if c.symbol == ' ' {
                colored(c, '\u{2502}', color)
            } else {
                c
            }
        } else {
            c
        }
    } else if cy == y1 && x1 <= cx < x2 - 1 {
        if c.symbol == ' ' {
            colored(c, '\u{2500}', color)
        } else {
            c
        }
    } else {
        c
    }
}

fn edge_cell_exec(c: Cell, cx: u16, cy: u16, x1: u16, y1: u16, x2: u16, y2: u16, color: Color) -> (r: Cell)
    ensures
        r == edge_cell(c, cx as int, cy as int, x1 as int, y1 as int, x2 as int, y2 as int, color),
{
    if x2 > 0 && cx == x2 - 1 {
        if cy == y2 {
            Cell { symbol: '\u{25B6}', fg: color, ..c }
        } else if y1 != y2 && cy == y1 {
            Cell { symbol: if y1 < y2 { '\u{2510}' } else { '\u{2514}' }, fg: color, ..c }
        } else if y1 != y2 && (if y1 < y2 { y1 < cy && cy < y2 } else { y2 < cy && cy < y1 }) {
            if c.symbol == ' ' {
                Cell { symbol: '\u{2502}', fg: color, ..c }
            } else {
                c
            }
        } else {
            c
        }
    } else if cy == y1 && x1 <= cx && (cx as u32) + 1 < (x2 as u32) {
        if c.symbol == ' ' {
            Cell { symbol: '\u{2500}', fg: color, ..c }
        } else {
            c
        }
    } else {
        c
    }
}

/// The grid `g` with an edge drawn; see `edge_cell`.
pub open spec fn edge_drawn(g: Seq<Seq<Cell>>, x1: int, y1: int, x2: int, y2: int, color: Color) -> Seq<Seq<Cell>> {
    Seq::new(g.len(), |b: int| Seq::new(g[b].len(), |a: int| edge_cell(g[b][a], a, b, x1, y1, x2, y2, color)))
}

/// The cell (`a`, `b`) is on the path of an edge: the horizontal run or the last column.
pub open spec fn on_edge_path(a: int, b: int, x1: int, y1: int, x2: int, y2: int) -> bool {
    ||| (b == y1 && x1 <= a < x2 - 1)
    ||| (x2 > 0 && a == x2 - 1 && (if y1 < y2 { y1 <= b <= y2 } else { y2 <= b <= y1 }))
}

/// Draw an edge from (`x1`, `y1`) to (`x2`, `y2`); see `edge_cell`.
fn draw_line(canvas: &mut Canvas, x1: u16, y1: u16, x2: u16, y2: u16, color: Color)
    requires
        old(canvas).wf(),
    ensures
        final(canvas).wf(),
        final(canvas).width == old(canvas).width,
        final(canvas).height == old(canvas).height,
        final(canvas).grid() == edge_drawn(old(canvas).grid(), x1 as int, y1 as int, x2 as int, y2 as int, color),
{
    let ghost g0 = canvas.grid();
    let ghost f = |c: Cell, a: int, b: int| edge_cell(c, a, b, x1 as int, y1 as int, x2 as int, y2 as int, color);
    // the horizontal run
    let end: u16 = if x2 > 0 { x2 - 1 } else { 0 };
    let mut cx: u16 = x1;
    while cx < end
        invariant
            canvas.wf(),
            canvas.width == old(canvas).width,
            canvas.height == old(canvas).height,
            g0 == old(canvas).grid(),
            g0.len() == canvas.height,
            forall|b: int| 0 <= b < g0.len() ==> (#[trigger] g0[b]).len() == canvas.width,
            end == (if x2 > 0 { x2 - 1 } else { 0 }),
            x1 <= cx,
            cx <= end || cx == x1,
            f == (|c: Cell, a: int, b: int| edge_cell(c, a, b, x1 as int, y1 as int, x2 as int, y2 as int, color)),
            forall|b: int, a: int| 0 <= b < canvas.height && 0 <= a < canvas.width ==> #[trigger] canvas.grid()[b][a] == (
                if b == y1 && x1 <= a < cx { f(g0[b][a], a, b) } else { g0[b][a] }),
        decreases end - cx,
    {
        if cx < canvas.width && y1 < canvas.height {
            let old_cell = canvas.cell(cx, y1);
            let nc = edge_cell_exec(old_cell, cx, y1, x1, y1, x2, y2, color);
            let ghost before = canvas.grid();
            canvas.put(cx, y1, nc);
            assert forall|b: int, a: int| 0 <= b < canvas.height && 0 <= a < canvas.width implies #[trigger] canvas.grid()[b][a] == (
                if b == y1 && x1 <= a < cx + 1 { f(g0[b][a], a, b) } else { g0[b][a] }) by {
                if !(b == y1 && a == cx) {
                    assert(canvas.grid()[b][a] == before[b][a]);
                }
            }
        }
        cx += 1;
    }
    // the last column
    if x2 > 0 {
        let col = x2 - 1;
        let (lo, hi) = if y1 < y2 { (y1, y2) } else { (y2, y1) };
        let ghost mid = canvas.grid();
        let mut cy: u16 = lo;
        let mut done = false;
        while !done
            invariant
                canvas.wf(),
                canvas.width == old(canvas).width,
                canvas.height == old(canvas).height,
                g0.len() == canvas.height,
                forall|b: int| 0 <= b < g0.len() ==> (#[trigger] g0[b]).len() == canvas.width,
                x2 > 0,
                col == x2 - 1,
                lo <= cy <= hi,
                lo == (if y1 < y2 { y1 } else { y2 }),
                hi == (if y1 < y2 { y2 } else { y1 }),
                f == (|c: Cell, a: int, b: int| edge_cell(c, a, b, x1 as int, y1 as int, x2 as int, y2 as int, color)),
                forall|b: int, a: int| 0 <= b < canvas.height && 0 <= a < canvas.width ==> #[trigger] canvas.grid()[b][a] == (
                    if (b == y1 && x1 <= a < x2 - 1) || (a == col && lo <= b < (if done { hi + 1 } else { cy as int })) { f(g0[b][a], a, b) } else { g0[b][a] }),
            decreases hi - cy, if done { 0int } else { 1int },
        {
            if col < canvas.width && cy < canvas.height {
                let old_cell = canvas.cell(col, cy);
                assert(old_cell == g0[cy as int][col as int]);
                let nc = edge_cell_exec(old_cell, col, cy, x1, y1, x2, y2, color);
                let ghost before = canvas.grid();
                canvas.put(col, cy, nc);
                assert forall|b: int, a: int| 0 <= b < canvas.height && 0 <= a < canvas.width implies #[trigger] canvas.grid()[b][a] == (
                    if (b == y1 && x1 <= a < x2 - 1) || (a == col && lo <= b < cy + 1) { f(g0[b][a], a, b) } else { g0[b][a] }) by {
                    if !(b == cy && a == col) {
                        assert(canvas.grid()[b][a] == before[b][a]);
                    }
                }
            }
            if cy == hi {
                done = true;
            } else {
                cy += 1;
            }
        }
    }
    assert forall|b: int, a: int| 0 <= b < canvas.height && 0 <= a < canvas.width implies #[trigger] canvas.grid()[b][a] == f(g0[b][a], a, b) by {
        if !on_edge_path(a, b, x1 as int, y1 as int, x2 as int, y2 as int) {
            assert(f(g0[b][a], a, b) == g0[b][a]);
        }
    }
    let ghost target = edge_drawn(g0, x1 as int, y1 as int, x2 as int, y2 as int, color);
    assert forall|b: int| 0 <= b < target.len() implies #[trigger] canvas.grid()[b] =~= target[b] by {
        assert(canvas.grid()[b] == canvas.rows@[b]@);
    }
    assert(canvas.grid() =~= target);
}

// ---------------------------------------------------------------------------
// The graph view
// ---------------------------------------------------------------------------

/// Node `i` holds a file of some cycle.
pub open spec fn on_cycle(app: App, i: int) -> bool {
    cycle_files(cycle_views(app.analysis.cycles@)).contains(graph_nodes(app.graph)[i].relative_path@)
}

/// The width left for a node's name: the box width less 4, or 0.
pub open spec fn name_width(w: u16) -> nat {
    if w >= 4 {
        (w - 4) as nat
    } else {
        0
    }
}

/// The grid `g` with the edge `e` drawn, from the middle of the right side of its source's
/// box to the middle of the left side of its target's; unchanged when either end has no
/// position.
pub open spec fn edge_step(g: Seq<Seq<Cell>>, app: App, layout: GraphLayout, e: (usize, usize, crate::graph::Import)) -> Seq<Seq<Cell>> {
    match (
        layout.offset_point(e.0, layout.node_width, (layout.node_height / 2) as u16),
        layout.offset_point(e.1, 0, (layout.node_height / 2) as u16),
    ) {
        (Some(p), Some(q)) => edge_drawn(
            g, p.0 as int, p.1 as int, q.0 as int, q.1 as int,
            edge_color(on_cycle(app, e.0 as int) && on_cycle(app, e.1 as int)),
        ),
        _ => g,
    }
}

/// The grid `g` with the first `k` edges drawn, in edge order.
pub open spec fn edges_drawn_upto(g: Seq<Seq<Cell>>, app: App, layout: GraphLayout, k: int) -> Seq<Seq<Cell>>
    decreases k,
{
    if k <= 0 {
        g
    } else {
        edge_step(edges_drawn_upto(g, app, layout, k - 1), app, layout, graph_edges(app.graph)[k - 1])
    }
}

/// The grid `g` with the box of node `i` drawn at its position; unchanged when it has none.
pub open spec fn node_step(g: Seq<Seq<Cell>>, app: App, layout: GraphLayout, i: int) -> Seq<Seq<Cell>> {
    match layout.position_of(i as usize) {
        Some(p) => {
            let selected = app.selected_node == Some(i as usize);
            node_drawn(
                g, p.0 as int, p.1 as int, layout.node_width as int,
                fitted(graph_nodes(app.graph)[i].relative_path@, name_width(layout.node_width)),
                border_paint(graph_nodes(app.graph)[i].layer, selected, on_cycle(app, i)),
                text_paint(selected, on_cycle(app, i)),
                selected,
            )
        },
        None => g,
    }
}

/// The grid `g` with the boxes of the first `k` nodes drawn, in node order.
pub open spec fn nodes_drawn_upto(g: Seq<Seq<Cell>>, app: App, layout: GraphLayout, k: int) -> Seq<Seq<Cell>>
    decreases k,
{
    if k <= 0 {
        g
    } else {
        node_step(nodes_drawn_upto(g, app, layout, k - 1), app, layout, k - 1)
    }
}

/// The grid `g` with the graph drawn: all edges first, so that they appear behind the
/// boxes, then all boxes.
pub open spec fn rendered(g: Seq<Seq<Cell>>, app: App, layout: GraphLayout) -> Seq<Seq<Cell>> {
    nodes_drawn_upto(
        edges_drawn_upto(g, app, layout, graph_edges(app.graph).len() as int),
        app, layout, graph_nodes(app.graph).len() as int,
    )
}

/// Every box of the layout, and the edge ends at its sides, have coordinates within `u16`;
/// boxes are at least 2 cells wide.
pub open spec fn drawable(layout: GraphLayout) -> bool {
    &&& 2 <= layout.node_width
    &&& forall|i: usize| #[trigger] layout.position_of(i) matches Some(p) ==> {
        &&& p.0 + layout.node_width <= u16::MAX
        &&& p.1 + 2 <= u16::MAX
        &&& p.1 + layout.node_height / 2 <= u16::MAX
    }
}

/// Widget state for drawing the graph view.
pub struct GraphView<'a> {
    pub app: &'a App,
    pub layout: &'a GraphLayout,
}

impl<'a> GraphView<'a> {
    pub fn new(app: &'a App, layout: &'a GraphLayout) -> (v: Self)
        ensures
            v.app == app,
            v.layout == layout,
    {
        GraphView { app, layout }
    }

    /// The files of all cycles, each once.
    pub fn get_cycle_nodes(&self) -> (r: Vec<String>)
        ensures
            views(r@) == cycle_files(cycle_views(self.app.analysis.cycles@)),
    {
        distinct_cycle_files(&self.app.analysis.cycles)
    }

    fn node_on_cycle(&self, i: usize, names: &Vec<String>) -> (b: bool)
        requires
            i < graph_nodes(self.app.graph).len(),
            views(names@) == cycle_files(cycle_views(self.app.analysis.cycles@)),
        ensures
            b == on_cycle(*self.app, i as int),
    {
        let path = &graph_node(&self.app.graph, i).relative_path;
        let mut k: usize = 0;
        while k < names.len()
            invariant
                k <= names@.len(),
                i < graph_nodes(self.app.graph).len(),
                path@ == graph_nodes(self.app.graph)[i as int].relative_path@,
                views(names@) == cycle_files(cycle_views(self.app.analysis.cycles@)),
                forall|j: int| 0 <= j < k ==> #[trigger] views(names@)[j] != path@,
            decreases names.len() - k,
        {
            if names[k] == *path {
                assert(views(names@)[k as int] == path@);
                assert(views(names@).contains(path@));
                return true;
            }
            k += 1;
        }
        false
    }

    /// Draw the box of node `i` at (`x`, `y`); see `node_step`.
    fn draw_node(&self, canvas: &mut Canvas, i: usize, x: u16, y: u16, names: &Vec<String>)
        requires
            old(canvas).wf(),
            i < graph_nodes(self.app.graph).len(),
            views(names@) == cycle_files(cycle_views(self.app.analysis.cycles@)),
            self.layout.position_of(i) == Some((x, y)),
            drawable(*self.layout),
        ensures
            final(canvas).wf(),
            final(canvas).width == old(canvas).width,
            final(canvas).height == old(canvas).height,
            final(canvas).grid() == node_step(old(canvas).grid(), *self.app, *self.layout, i as int),
    {
        let node = graph_node(&self.app.graph, i);
        let selected = match self.app.selected_node {
            Some(s) => s == i,
            None => false,
        };
        let cyc = self.node_on_cycle(i, names);
        let w = self.layout.node_width;
        let border = Paint {
            fg: if cyc { Color::Red } else if selected { Color::Yellow } else { color_of_layer(node.layer) },
            bg: None,
            bold: selected,
        };
        let text = if selected {
            Paint { fg: Color::Black, bg: Some(Color::Yellow), bold: true }
        } else if cyc {
            Paint { fg: Color::Red, bg: None, bold: false }
        } else {
            Paint { fg: Color::White, bg: None, bold: false }
        };
        let max_text = if w >= 4 { (w - 4) as usize } else { 0 };
        let name = truncate_filename(node.relative_path.as_str(), max_text);
        let display = chars_of(name.as_str());
        proof {
            reveal_strlit("...");
            assert(max_text <= u16::MAX);
            assert(display@.len() <= u16::MAX);
        }
        proof {
            assert(self.layout.position_of(i) matches Some(p) ==> p.0 + w <= u16::MAX && p.1 + 2 <= u16::MAX);
        }
        draw_box(canvas, x, y, w, &display, border, text, selected);
    }

    /// Draw the edge from node `a` to node `b`; see `edge_step`.
    fn draw_edge(&self, canvas: &mut Canvas, e: (usize, usize, crate::graph::Import), names: &Vec<String>)
        requires
            old(canvas).wf(),
            e.0 < graph_nodes(self.app.graph).len(),
            e.1 < graph_nodes(self.app.graph).len(),
            views(names@) == cycle_files(cycle_views(self.app.analysis.cycles@)),
            drawable(*self.layout),
        ensures
            final(canvas).wf(),
            final(canvas).width == old(canvas).width,
            final(canvas).height == old(canvas).height,
            final(canvas).grid() == edge_step(old(canvas).grid(), *self.app, *self.layout, e),
    {
        let cyc = self.node_on_cycle(e.0, names) && self.node_on_cycle(e.1, names);
        let color = if cyc { Color::Red } else { Color::DarkGray };
        proof {
            assert(self.layout.position_of(e.0) matches Some(p) ==> p.0 + self.layout.node_width <= u16::MAX && p.1 + self.layout.node_height / 2 <= u16::MAX);
            assert(self.layout.position_of(e.1) matches Some(p) ==> p.1 + self.layout.node_height / 2 <= u16::MAX);
        }
        let from = self.layout.get_node_right(e.0);
        let to = self.layout.get_node_left(e.1);
        match (from, to) {
            (Some((x1, y1)), Some((x2, y2))) => {
                draw_line(canvas, x1, y1, x2, y2, color);
            },
            _ => {},
        }
    }

    /// Draw the graph: every edge in edge order, then the box of every node that has a
    /// position, in node order; see `rendered`.
    pub fn render(&self, canvas: &mut Canvas)
        requires
            old(canvas).wf(),
            drawable(*self.layout),
        ensures
            final(canvas).wf(),
            final(canvas).width == old(canvas).width,
            final(canvas).height == old(canvas).height,
            final(canvas).grid() == rendered(old(canvas).grid(), *self.app, *self.layout),
    {
        let ghost g0 = canvas.grid();
        let names = self.get_cycle_nodes();
        let n = graph_node_count(&self.app.graph);
        let raw = graph_raw_edges(&self.app.graph);
        let mut k: usize = 0;
        while k < raw.len()
            invariant
                canvas.wf(),
                canvas.width == old(canvas).width,
                canvas.height == old(canvas).height,
                g0 == old(canvas).grid(),
                raw@ == graph_edges(self.app.graph),
                edges_within(raw@, graph_nodes(self.app.graph).len()),
                views(names@) == cycle_files(cycle_views(self.app.analysis.cycles@)),
                drawable(*self.layout),
                k <= raw@.len(),
                canvas.grid() == edges_drawn_upto(g0, *self.app, *self.layout, k as int),
            decreases raw.len() - k,
        {
            self.draw_edge(canvas, raw[k], &names);
            k += 1;
        }
        let ghost g1 = canvas.grid();
        let mut i: usize = 0;
        while i < n
            invariant
                canvas.wf(),
                canvas.width == old(canvas).width,
                canvas.height == old(canvas).height,
                n == graph_nodes(self.app.graph).len(),
                g1 == edges_drawn_upto(g0, *self.app, *self.layout, graph_edges(self.app.graph).len() as int),
                views(names@) == cycle_files(cycle_views(self.app.analysis.cycles@)),
                drawable(*self.layout),
                i <= n,
                canvas.grid() == nodes_drawn_upto(g1, *self.app, *self.layout, i as int),
            decreases n - i,
        {
            match self.layout.get_position(i) {
                Some((x, y)) => {
                    self.draw_node(canvas, i, x, y, &names);
                },
                None => {},
            }
            i += 1;
        }
    }
}

} // verus!
