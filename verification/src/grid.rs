//! The grid of cells inside a fence: which files are in view, and which cell
//! stands for which file.
use crate::model::Fence;
use vstd::prelude::*;

verus! {

/// What the pointer is over, inside a fence.
#[derive(Clone, Copy, Debug, PartialEq, Eq, Structural)]
pub enum Hit {
    Nothing,
    EdgeW,
    EdgeE,
    EdgeN,
    EdgeS,
    CornerNW,
    CornerNE,
    CornerSW,
    CornerSE,
    Title,
    Collapse,
    Scrollbar,
    Icon(usize),
    Blank,
}

/// The grid of a fence: columns and rows in view, rows in all, and the files in view.
#[derive(Clone, Copy, Debug, PartialEq, Eq, Structural)]
pub struct Layout {
    pub cols: usize,
    pub rows: usize,
    pub total_rows: usize,
    pub first_row: usize,
    pub first_index: usize,
    pub visible: usize,
}

/// The rows that `n` files take in `cols` columns.
pub open spec fn rows_for(n: int, cols: int) -> int {
    if n == 0 {
        0
    } else {
        (n - 1) / cols + 1
    }
}

/// The farthest row that can be scrolled to.
pub open spec fn scroll_limit(total_rows: int, rows: int) -> int {
    if total_rows > rows {
        total_rows - rows
    } else {
        0
    }
}

/// The lesser of two numbers.
pub open spec fn lesser(a: int, b: int) -> int {
    if a < b {
        a
    } else {
        b
    }
}

/// `la` is the grid of `cols` by `rows` cells scrolled to `scroll_rows`, as far as
/// there are rows, for `n` files.
pub open spec fn is_layout(la: Layout, cols: int, rows: int, scroll_rows: int, n: int) -> bool {
    let total = rows_for(n, cols);
    let first_row = lesser(scroll_rows, scroll_limit(total, rows));
    let first = lesser(first_row * cols, n);
    &&& la.cols == cols
    &&& la.rows == rows
    &&& la.total_rows == total
    &&& la.first_row == first_row
    &&& la.first_index == first
    &&& la.visible == lesser(n - first, rows * cols)
}

/// The first cell of every row that can be scrolled to holds a file.
proof fn lemma_scrolled_row(n: int, cols: int, rows: int, row: int)
    requires
        n >= 0,
        cols >= 1,
        rows >= 1,
        0 <= row <= scroll_limit(rows_for(n, cols), rows),
    ensures
        0 <= row * cols <= n,
        row > 0 ==> row * cols < n,
{
    if n > 0 {
        let q = (n - 1) / cols;
        assert(row <= q);
        assert(row * cols <= q * cols) by (nonlinear_arith)
            requires
                0 <= row <= q,
                cols >= 1,
        ;
        assert(q * cols <= n - 1) by (nonlinear_arith)
            requires
                q == (n - 1) / cols,
                cols >= 1,
                n >= 1,
        ;
        assert(0 <= row * cols) by (nonlinear_arith)
            requires
                0 <= row,
                cols >= 1,
        ;
    } else {
        assert(row == 0);
    }
}

/// The grid of a fence with room for `cols` by `rows` cells and `n_items` files.
pub fn layout(fence: &Fence, cols: usize, rows: usize, n_items: usize) -> (r: Layout)
    requires
        cols >= 1,
        rows >= 1,
        cols * rows <= usize::MAX,
    ensures
        is_layout(r, cols as int, rows as int, fence.scroll_rows as int, n_items as int),
{
    let total_rows: usize = if n_items == 0 {
        0
    } else {
        (n_items - 1) / cols + 1
    };
    let limit: usize = if total_rows > rows {
        total_rows - rows
    } else {
        0
    };
    let first_row: usize = if fence.scroll_rows < limit {
        fence.scroll_rows
    } else {
        limit
    };
    proof {
        lemma_scrolled_row(n_items as int, cols as int, rows as int, first_row as int);
        assert(rows * cols == cols * rows) by (nonlinear_arith);
    }
    let first_index: usize = first_row * cols;
    let left: usize = n_items - first_index;
    let room: usize = rows * cols;
    let visible: usize = if left < room {
        left
    } else {
        room
    };
    Layout { cols, rows, total_rows, first_row, first_index, visible }
}

/// The farthest row that can be scrolled to.
pub fn max_scroll(la: &Layout) -> (r: usize)
    ensures
        r == scroll_limit(la.total_rows as int, la.rows as int),
{
    if la.total_rows > la.rows {
        la.total_rows - la.rows
    } else {
        0
    }
}

/// What the cell in column `col` of row `row` stands for.
pub open spec fn cell_hit(la: Layout, collapsed: bool, col: int, row: int, n: int) -> Hit {
    let index = la.first_index + row * la.cols + col;
    if collapsed || col >= la.cols || row >= la.rows || index >= n {
        Hit::Blank
    } else {
        Hit::Icon(index as usize)
    }
}

/// What the pointer is over in the content area of a fence, in column `col` of row
/// `row` of its cells.
pub fn hit_cell(la: &Layout, collapsed: bool, col: usize, row: usize, n_items: usize) -> (r: Hit)
    requires
        la.first_index + la.rows * la.cols <= usize::MAX,
    ensures
        r == cell_hit(*la, collapsed, col as int, row as int, n_items as int),
{
    if collapsed || col >= la.cols || row >= la.rows {
        return Hit::Blank;
    }
    proof {
        assert(row * la.cols + col < la.rows * la.cols) by (nonlinear_arith)
            requires
                row < la.rows,
                col < la.cols,
        ;
        assert(0 <= row * la.cols) by (nonlinear_arith)
            requires
                row >= 0,
                la.cols >= 0,
        ;
    }
    let index: usize = la.first_index + row * la.cols + col;
    if index < n_items {
        Hit::Icon(index)
    } else {
        Hit::Blank
    }
}

/// What is known of a place on a fence. All distances are the caller's to judge.
#[derive(Clone, Copy)]
pub struct Spot {
    /// Outside the fence.
    pub outside: bool,
    /// On the small triangle in the title bar.
    pub chip: bool,
    /// Within reach of a corner, by the side it is near.
    pub corner_w: bool,
    pub corner_e: bool,
    pub corner_n: bool,
    pub corner_s: bool,
    /// On the track of the scrollbar.
    pub track: bool,
    /// Within reach of an edge.
    pub edge_w: bool,
    pub edge_e: bool,
    pub edge_n: bool,
    pub edge_s: bool,
    /// In the title bar.
    pub title: bool,
    /// In the border around the cells.
    pub border: bool,
    /// The column and the row of the cell.
    pub col: usize,
    pub row: usize,
}

/// What a place on a fence stands for: the triangle before the corners, the corners
/// before the scrollbar, the scrollbar before the edges, the edges before the title
/// bar and the cells.
pub open spec fn spot_hit(la: Layout, collapsed: bool, s: Spot, n: int) -> Hit {
    if s.outside {
        Hit::Nothing
    } else if s.chip {
        Hit::Collapse
    } else if s.corner_w && s.corner_n {
        Hit::CornerNW
    } else if s.corner_w && s.corner_s {
        Hit::CornerSW
    } else if s.corner_e && s.corner_n {
        Hit::CornerNE
    } else if s.corner_e && s.corner_s {
        Hit::CornerSE
    } else if la.total_rows > la.rows && s.track {
        Hit::Scrollbar
    } else if s.edge_w {
        Hit::EdgeW
    } else if s.edge_e {
        Hit::EdgeE
    } else if s.edge_n {
        Hit::EdgeN
    } else if s.edge_s {
        Hit::EdgeS
    } else if s.title {
        Hit::Title
    } else if s.border {
        Hit::Blank
    } else {
        cell_hit(la, collapsed, s.col as int, s.row as int, n)
    }
}

/// What the pointer is over, on a fence of `n_items` items.
pub fn hit_test(fence: &Fence, la: &Layout, s: &Spot, n_items: usize) -> (r: Hit)
    requires
        la.first_index + la.rows * la.cols <= usize::MAX,
    ensures
        r == spot_hit(*la, fence.collapsed, *s, n_items as int),
{
    if s.outside {
        Hit::Nothing
    } else if s.chip {
        Hit::Collapse
    } else if s.corner_w && s.corner_n {
        Hit::CornerNW
    } else if s.corner_w && s.corner_s {
        Hit::CornerSW
    } else if s.corner_e && s.corner_n {
        Hit::CornerNE
    } else if s.corner_e && s.corner_s {
        Hit::CornerSE
    } else if la.total_rows > la.rows && s.track {
        Hit::Scrollbar
    } else if s.edge_w {
        Hit::EdgeW
    } else if s.edge_e {
        Hit::EdgeE
    } else if s.edge_n {
        Hit::EdgeN
    } else if s.edge_s {
        Hit::EdgeS
    } else if s.title {
        Hit::Title
    } else if s.border {
        Hit::Blank
    } else {
        hit_cell(la, fence.collapsed, s.col, s.row, n_items)
    }
}

/// The row and the column of the cell of file `index`.
pub fn cell_of(la: &Layout, index: usize) -> (r: (usize, usize))
    requires
        la.cols >= 1,
        la.first_index <= index,
    ensures
        r.0 == (index - la.first_index) / la.cols as int,
        r.1 == (index - la.first_index) % la.cols as int,
{
    let rel: usize = index - la.first_index;
    (rel / la.cols, rel % la.cols)
}

/// The cell in which a file is drawn is the cell in which it is hit.
pub proof fn law_drawn_where_hit(
    la: Layout,
    cols: int,
    rows: int,
    scroll_rows: int,
    n: int,
    index: int,
)
    requires
        cols >= 1,
        rows >= 1,
        scroll_rows >= 0,
        0 <= n <= usize::MAX,
        is_layout(la, cols, rows, scroll_rows, n),
        la.first_index <= index < la.first_index + la.visible,
    ensures
        index < n,
        cell_hit(
            la,
            false,
            (index - la.first_index) % la.cols as int,
            (index - la.first_index) / la.cols as int,
            n,
        ) == Hit::Icon(index as usize),
{
    let rel = index - la.first_index;
    let q = rel / cols;
    let r = rel % cols;
    assert(q * cols + r == rel && 0 <= r < cols) by (nonlinear_arith)
        requires
            q == rel / cols,
            r == rel % cols,
            cols >= 1,
    ;
    assert(q < rows) by (nonlinear_arith)
        requires
            q * cols + r == rel,
            0 <= r,
            rel < rows * cols,
            cols >= 1,
    ;
}

/// Scrolling never leaves the first row in view empty while there are files.
pub proof fn law_scrolled_view_is_not_empty(
    la: Layout,
    cols: int,
    rows: int,
    scroll_rows: int,
    n: int,
)
    requires
        cols >= 1,
        rows >= 1,
        scroll_rows >= 0,
        n >= 1,
        is_layout(la, cols, rows, scroll_rows, n),
    ensures
        la.visible >= 1,
        la.first_index + la.visible <= n,
        la.first_row + rows <= la.total_rows || la.first_row == 0,
{
    lemma_scrolled_row(n, cols, rows, la.first_row as int);
    assert(rows * cols >= 1) by (nonlinear_arith)
        requires
            rows >= 1,
            cols >= 1,
    ;
}

/// The numbers from `lo` up to `hi` that are in view.
pub open spec fn in_view(la: Layout, lo: int, hi: int) -> Seq<usize>
    decreases hi - lo + 1,
{
    if hi < lo {
        Seq::empty()
    } else {
        let r = in_view(la, lo, hi - 1);
        if la.first_index <= hi < la.first_index + la.visible {
            r.push(hi as usize)
        } else {
            r
        }
    }
}

/// The files in view between two files, both ends included.
pub fn indices_between(la: &Layout, a: usize, b: usize, n_items: usize) -> (r: Vec<usize>)
    requires
        la.first_index + la.visible <= usize::MAX,
    ensures
        r@ == (if n_items == 0 {
            Seq::empty()
        } else {
            in_view(
                *la,
                lesser(lesser(a as int, b as int), n_items - 1),
                lesser(if a < b { b as int } else { a as int }, n_items - 1),
            )
        }),
        forall|i: int|
            0 <= i < r@.len() ==> #[trigger] r@[i] < n_items && la.first_index <= r@[i]
                < la.first_index + la.visible,
{
    let mut out: Vec<usize> = Vec::new();
    if n_items == 0 {
        return out;
    }
    let last: usize = n_items - 1;
    let small: usize = if a < b {
        a
    } else {
        b
    };
    let large: usize = if a < b {
        b
    } else {
        a
    };
    let lo: usize = if small < last {
        small
    } else {
        last
    };
    let hi: usize = if large < last {
        large
    } else {
        last
    };
    let mut i: usize = lo;
    let mut more = true;
    assert(in_view(*la, lo as int, lo - 1) =~= Seq::empty());
    while more
        invariant
            lo <= hi < n_items,
            la.first_index + la.visible <= usize::MAX,
            more ==> lo <= i <= hi && out@ == in_view(*la, lo as int, i - 1),
            !more ==> out@ == in_view(*la, lo as int, hi as int),
            forall|k: int|
                0 <= k < out@.len() ==> #[trigger] out@[k] < n_items && la.first_index <= out@[k]
                    < la.first_index + la.visible,
        decreases (if more {
            hi - i + 1
        } else {
            0
        }),
    {
        if la.first_index <= i && i < la.first_index + la.visible {
            out.push(i);
        }
        if i == hi {
            more = false;
        } else {
            i = i + 1;
        }
    }
    out
}

/// The cells in view of row `row`, from column 0 up to column `col`, that the
/// rectangle touches.
pub open spec fn touched_cells(
    la: Layout,
    rows_hit: Seq<bool>,
    cols_hit: Seq<bool>,
    n: int,
    row: int,
    col: int,
) -> Seq<usize>
    decreases row + 1, col + 1,
{
    if row < 0 || col < 0 {
        Seq::empty()
    } else {
        let before = if col > 0 {
            touched_cells(la, rows_hit, cols_hit, n, row, col - 1)
        } else {
            touched_cells(la, rows_hit, cols_hit, n, row - 1, la.cols - 1)
        };
        let index = la.first_index + row * la.cols + col;
        if index < n && index < la.first_index + la.visible && rows_hit[row] && cols_hit[col] {
            before.push(index as usize)
        } else {
            before
        }
    }
}

/// The files in view whose cells a rectangle touches, row by row. `rows_hit` and
/// `cols_hit` say which rows and which columns of cells it touches.
pub fn indices_in_rect(
    la: &Layout,
    rows_hit: &Vec<bool>,
    cols_hit: &Vec<bool>,
    n_items: usize,
) -> (r: Vec<usize>)
    requires
        la.cols >= 1,
        rows_hit.len() == la.rows,
        cols_hit.len() == la.cols,
        la.first_index + la.rows * la.cols <= usize::MAX,
        la.first_index + la.visible <= usize::MAX,
    ensures
        r@ == touched_cells(*la, rows_hit@, cols_hit@, n_items as int, la.rows - 1, la.cols - 1),
{
    let mut out: Vec<usize> = Vec::new();
    let mut row: usize = 0;
    while row < la.rows
        invariant
            la.cols >= 1,
            row <= la.rows,
            rows_hit.len() == la.rows,
            cols_hit.len() == la.cols,
            la.first_index + la.rows * la.cols <= usize::MAX,
            la.first_index + la.visible <= usize::MAX,
            out@ == touched_cells(*la, rows_hit@, cols_hit@, n_items as int, row - 1, la.cols - 1),
        decreases la.rows - row,
    {
        let mut col: usize = 0;
        while col < la.cols
            invariant
                row < la.rows,
                col <= la.cols,
                la.cols >= 1,
                rows_hit.len() == la.rows,
                cols_hit.len() == la.cols,
                la.first_index + la.rows * la.cols <= usize::MAX,
                la.first_index + la.visible <= usize::MAX,
                out@ == (if col > 0 {
                    touched_cells(*la, rows_hit@, cols_hit@, n_items as int, row as int, col - 1)
                } else {
                    touched_cells(
                        *la,
                        rows_hit@,
                        cols_hit@,
                        n_items as int,
                        row - 1,
                        la.cols - 1,
                    )
                }),
            decreases la.cols - col,
        {
            proof {
                assert(row * la.cols + col < la.rows * la.cols) by (nonlinear_arith)
                    requires
                        row < la.rows,
                        col < la.cols,
                ;
                assert(0 <= row * la.cols) by (nonlinear_arith)
                    requires
                        row >= 0,
                        la.cols >= 0,
                ;
            }
            let index: usize = la.first_index + row * la.cols + col;
            if index < n_items && index < la.first_index + la.visible && rows_hit[row]
                && cols_hit[col] {
                out.push(index);
            }
            col = col + 1;
        }
        row = row + 1;
    }
    out
}

/// The grid has just as many rows as the files need: they fill all rows but the last, and
/// the last is not empty.
pub proof fn law_rows_hold_the_files(la: Layout, cols: int, rows: int, scroll_rows: int, n: int)
    requires
        cols >= 1,
        rows >= 1,
        scroll_rows >= 0,
        n >= 0,
        is_layout(la, cols, rows, scroll_rows, n),
    ensures
        la.total_rows == 0 <==> n == 0,
        n > 0 ==> (la.total_rows - 1) * cols < n <= la.total_rows * cols,
{
    if n > 0 {
        let q = (n - 1) / cols;
        assert(q * cols <= n - 1 < q * cols + cols) by (nonlinear_arith)
            requires
                q == (n - 1) / cols,
                cols >= 1,
                n >= 1,
        ;
        assert((q + 1) * cols == q * cols + cols) by (nonlinear_arith);
    }
}

/// The view begins at the row that was scrolled to, or at the last from which the view is
/// still full; it shows the files from there on, as many as there is room for.
pub proof fn law_view_begins_where_scrolled(
    la: Layout,
    cols: int,
    rows: int,
    scroll_rows: int,
    n: int,
)
    requires
        cols >= 1,
        rows >= 1,
        scroll_rows >= 0,
        n >= 0,
        is_layout(la, cols, rows, scroll_rows, n),
    ensures
        la.cols == cols,
        la.rows == rows,
        la.total_rows <= rows ==> la.first_row == 0,
        la.total_rows > rows && scroll_rows + rows <= la.total_rows ==> la.first_row == scroll_rows,
        la.total_rows > rows && scroll_rows + rows > la.total_rows ==> la.first_row + rows
            == la.total_rows,
        la.first_index == la.first_row * cols,
        n - la.first_index >= rows * cols ==> la.visible == rows * cols,
        n - la.first_index < rows * cols ==> la.visible == n - la.first_index,
        scroll_limit(la.total_rows as int, la.rows as int) == (if la.total_rows > la.rows {
            la.total_rows - la.rows
        } else {
            0
        }),
{
    lemma_scrolled_row(n, cols, rows, la.first_row as int);
}

/// A cell stands for the file that is as many places behind the first in view as there
/// are cells before it, row by row; and for none outside the grid, behind the last file
/// and in a collapsed fence.
pub proof fn law_cells_count_row_by_row(
    la: Layout,
    collapsed: bool,
    col: int,
    row: int,
    n: int,
)
    requires
        0 <= n <= usize::MAX,
        0 <= col,
        0 <= row,
    ensures
        ({
            let h = cell_hit(la, collapsed, col, row, n);
            let index = la.first_index + row * la.cols + col;
            &&& h is Icon <==> !collapsed && col < la.cols && row < la.rows && index < n
            &&& h is Icon || h is Blank
            &&& h matches Hit::Icon(i) ==> i == index
        }),
{
    assert(0 <= row * la.cols) by (nonlinear_arith)
        requires
            row >= 0,
            la.cols >= 0,
    ;
}

/// What a place stands for: outside nothing, then the triangle, then a corner where two
/// sides are near, then the scrollbar where there are rows out of view, then the edges,
/// the title bar, the border, and at last the cells.
pub proof fn law_places_have_their_order(la: Layout, collapsed: bool, s: Spot, n: int)
    ensures
        ({
            let h = spot_hit(la, collapsed, s, n);
            let corner = (s.corner_w || s.corner_e) && (s.corner_n || s.corner_s);
            let bar = la.total_rows > la.rows && s.track;
            let edge = s.edge_w || s.edge_e || s.edge_n || s.edge_s;
            let free = !s.outside && !s.chip && !corner;
            &&& h is Nothing <==> s.outside
            &&& h is Collapse <==> !s.outside && s.chip
            &&& !s.outside && !s.chip && corner ==> {
                &&& s.corner_w && s.corner_n ==> h is CornerNW
                &&& s.corner_w && !s.corner_n ==> h is CornerSW
                &&& !s.corner_w && s.corner_n ==> h is CornerNE
                &&& !s.corner_w && !s.corner_n ==> h is CornerSE
            }
            &&& h is Scrollbar <==> free && bar
            &&& h is EdgeW <==> free && !bar && s.edge_w
            &&& h is EdgeE <==> free && !bar && !s.edge_w && s.edge_e
            &&& h is EdgeN <==> free && !bar && !s.edge_w && !s.edge_e && s.edge_n
            &&& h is EdgeS <==> free && !bar && !s.edge_w && !s.edge_e && !s.edge_n && s.edge_s
            &&& h is Title <==> free && !bar && !edge && s.title
            &&& h is Icon ==> free && !bar && !edge && !s.title && !s.border
            &&& free && !bar && !edge && !s.title && s.border ==> h is Blank
            &&& free && !bar && !edge && !s.title && !s.border ==> h == cell_hit(
                la,
                collapsed,
                s.col as int,
                s.row as int,
                n,
            )
        }),
{
}

/// The numbers between two that are in view, in their order.
pub proof fn law_in_view_are_the_shown(la: Layout, lo: int, hi: int, x: usize)
    requires
        la.first_index + la.visible <= usize::MAX,
        0 <= lo,
    ensures
        in_view(la, lo, hi).contains(x) <==> lo <= x <= hi && la.first_index <= x
            < la.first_index + la.visible,
        forall|i: int, j: int|
            0 <= i < j < in_view(la, lo, hi).len() ==> #[trigger] in_view(la, lo, hi)[i]
                < #[trigger] in_view(la, lo, hi)[j],
    decreases hi - lo + 1,
{
    lemma_in_view(la, lo, hi);
    let r = in_view(la, lo, hi);
    if hi >= lo {
        law_in_view_are_the_shown(la, lo, hi - 1, x);
        lemma_in_view(la, lo, hi - 1);
        let p = in_view(la, lo, hi - 1);
        if r.len() > p.len() {
            assert(r.last() == r[r.len() - 1]);
        }
        if p.contains(x) {
            let i = choose|i: int| 0 <= i < p.len() && p[i] == x;
            assert(r[i] == x);
        }
        if r.contains(x) {
            let i = choose|i: int| 0 <= i < r.len() && r[i] == x;
            if i < p.len() {
                assert(p[i] == x);
            }
        }
    }
}

proof fn lemma_in_view(la: Layout, lo: int, hi: int)
    requires
        la.first_index + la.visible <= usize::MAX,
        0 <= lo,
    ensures
        forall|i: int|
            0 <= i < in_view(la, lo, hi).len() ==> #[trigger] in_view(la, lo, hi)[i] <= hi,
    decreases hi - lo + 1,
{
    if hi >= lo {
        lemma_in_view(la, lo, hi - 1);
        assert forall|i: int| 0 <= i < in_view(la, lo, hi).len() implies #[trigger] in_view(
            la,
            lo,
            hi,
        )[i] <= hi by {
            if i < in_view(la, lo, hi - 1).len() {
                assert(in_view(la, lo, hi)[i] == in_view(la, lo, hi - 1)[i]);
            }
        }
    }
}

proof fn lemma_one_cell(cols: int, r: int, c: int, s: int, d: int)
    requires
        0 <= c < cols,
        0 <= d < cols,
        r * cols + c == s * cols + d,
    ensures
        r == s && c == d,
{
    assert((r - s) * cols == d - c) by (nonlinear_arith)
        requires
            r * cols + c == s * cols + d,
    ;
    assert(r == s) by (nonlinear_arith)
        requires
            (r - s) * cols == d - c,
            -cols < d - c < cols,
            cols > 0,
    ;
}

proof fn lemma_touched(
    la: Layout,
    rows_hit: Seq<bool>,
    cols_hit: Seq<bool>,
    n: int,
    row: int,
    col: int,
    r: int,
    c: int,
)
    requires
        0 <= n <= usize::MAX,
        0 <= r,
        0 <= c < la.cols,
        -1 <= row,
        0 <= col < la.cols,
        la.first_index + r * la.cols + c <= usize::MAX,
    ensures
        ({
            let x = la.first_index + r * la.cols + c;
            touched_cells(la, rows_hit, cols_hit, n, row, col).contains(x as usize) <==> (r < row
                || (r == row && c <= col)) && x < n && x < la.first_index + la.visible
                && rows_hit[r] && cols_hit[c]
        }),
    decreases row + 1, col + 1,
{
    let x = la.first_index + r * la.cols + c;
    assert(0 <= r * la.cols) by (nonlinear_arith)
        requires
            r >= 0,
            la.cols >= 0,
    ;
    let out = touched_cells(la, rows_hit, cols_hit, n, row, col);
    if row >= 0 {
        let before = if col > 0 {
            touched_cells(la, rows_hit, cols_hit, n, row, col - 1)
        } else {
            touched_cells(la, rows_hit, cols_hit, n, row - 1, la.cols - 1)
        };
        if col > 0 {
            lemma_touched(la, rows_hit, cols_hit, n, row, col - 1, r, c);
        } else {
            lemma_touched(la, rows_hit, cols_hit, n, row - 1, la.cols - 1, r, c);
        }
        let index = la.first_index + row * la.cols + col;
        assert(0 <= row * la.cols) by (nonlinear_arith)
            requires
                row >= 0,
                la.cols >= 0,
        ;
        if index == x {
            lemma_one_cell(la.cols as int, r, c, row, col);
        }
        if out.len() > before.len() {
            assert(out == before.push(index as usize));
            assert(out[out.len() - 1] == index as usize);
        }
        if before.contains(x as usize) {
            let i = choose|i: int| 0 <= i < before.len() && before[i] == x as usize;
            assert(out[i] == x as usize);
        }
        if out.contains(x as usize) {
            let i = choose|i: int| 0 <= i < out.len() && out[i] == x as usize;
            if i < before.len() {
                assert(before[i] == x as usize);
            } else {
                assert(index as usize == x as usize);
                assert(index == x);
            }
        }
    }
}

/// A rectangle touches the files in view whose row and whose column it touches.
pub proof fn law_rectangle_touches_rows_and_columns(
    la: Layout,
    rows_hit: Seq<bool>,
    cols_hit: Seq<bool>,
    n: int,
    r: int,
    c: int,
)
    requires
        0 <= n <= usize::MAX,
        0 <= r < la.rows,
        0 <= c < la.cols,
        la.first_index + la.rows * la.cols <= usize::MAX,
    ensures
        ({
            let x = la.first_index + r * la.cols + c;
            touched_cells(la, rows_hit, cols_hit, n, la.rows - 1, la.cols - 1).contains(x as usize)
                <==> x < n && x < la.first_index + la.visible && rows_hit[r] && cols_hit[c]
        }),
{
    assert(r * la.cols + c < la.rows * la.cols) by (nonlinear_arith)
        requires
            r < la.rows,
            c < la.cols,
    ;
    lemma_touched(la, rows_hit, cols_hit, n, la.rows - 1, la.cols - 1, r, c);
}

} // verus!
