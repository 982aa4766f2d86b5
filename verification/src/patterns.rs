//! Geometry of the projected patterns (checkerboards, axis lines).

use vstd::arithmetic::div_mod::{
    lemma_div_pos_is_pos, lemma_fundamental_div_mod, lemma_mod_multiples_basic,
};
use vstd::prelude::*;

use crate::types::{Point2i, Rect, Size};

verus! {

/// Which axis a set of line positions is specified along.
#[derive(Clone, Copy, Debug, PartialEq, Eq, Hash, Structural)]
pub enum Axis {
    /// Positions are x-coordinates; lines are vertical.
    X,
    /// Positions are y-coordinates; lines are horizontal.
    Y,
}

/// A straight stroke between two pixels, both ends lit.
#[derive(Clone, Copy, Debug, PartialEq, Eq, Structural)]
pub struct Stroke {
    pub from: Point2i,
    pub to: Point2i,
}

// ---- checkerboards ----

/// The square in column `x` and row `y` of a board.
pub open spec fn board_square(x: int, y: int, stride: int) -> Rect {
    Rect {
        x: (x * stride) as i32,
        y: (y * stride) as i32,
        width: stride as i32,
        height: stride as i32,
    }
}

/// The filled squares among the first `rows` of column `x`, from the top.
pub open spec fn filled_in_column(x: int, rows: int, stride: int) -> Seq<Rect>
    decreases rows,
{
    if rows <= 0 {
        seq![]
    } else if (x + rows - 1) % 2 == 0 {
        filled_in_column(x, rows - 1, stride).push(board_square(x, rows - 1, stride))
    } else {
        filled_in_column(x, rows - 1, stride)
    }
}

/// The filled squares of a board, column by column.
pub open spec fn filled_squares(columns: int, rows: int, stride: int) -> Seq<Rect>
    decreases columns,
{
    if columns <= 0 {
        seq![]
    } else {
        filled_squares(columns - 1, rows, stride) + filled_in_column(columns - 1, rows, stride)
    }
}

/// How many whole squares fit a length. A negative stride fits none.
pub open spec fn squares_along(length: int, stride: int) -> int {
    if stride > 0 {
        length / stride
    } else {
        0
    }
}

/// The filled squares of a checkerboard with `stride`-pixel squares; the
/// alternating squares are left black.
pub fn generate_checkered(height: i32, width: i32, stride: i32) -> (squares: Vec<Rect>)
    requires
        height >= 0,
        width >= 0,
        stride != 0,
    ensures
        squares@ == filled_squares(
            squares_along(width as int, stride as int),
            squares_along(height as int, stride as int),
            stride as int,
        ),
{
    let mut squares: Vec<Rect> = Vec::new();
    if stride < 0 {
        return squares;
    }
    let columns: i32 = width / stride;
    let rows: i32 = height / stride;
    assert(columns * stride <= width && rows * stride <= height) by {
        vstd::arithmetic::div_mod::lemma_fundamental_div_mod(width as int, stride as int);
        vstd::arithmetic::div_mod::lemma_fundamental_div_mod(height as int, stride as int);
        vstd::arithmetic::mul::lemma_mul_is_commutative(stride as int, columns as int);
        vstd::arithmetic::mul::lemma_mul_is_commutative(stride as int, rows as int);
    }
    let mut x: i32 = 0;
    while x < columns
        invariant
            0 <= x <= columns,
            0 <= rows,
            0 < stride,
            columns * stride <= i32::MAX,
            rows * stride <= i32::MAX,
            squares@ == filled_squares(x as int, rows as int, stride as int),
        decreases columns - x,
    {
        assert(0 <= x * stride <= columns * stride) by (nonlinear_arith)
            requires
                0 <= x <= columns,
                0 < stride,
        ;
        let ghost before = squares@;
        let mut y: i32 = 0;
        assert(squares@ =~= before + filled_in_column(x as int, 0, stride as int));
        while y < rows
            invariant
                0 <= x < columns,
                0 <= y <= rows,
                0 < stride,
                0 <= x * stride <= i32::MAX,
                rows * stride <= i32::MAX,
                squares@ == before + filled_in_column(x as int, y as int, stride as int),
            decreases rows - y,
        {
            assert(0 <= y * stride <= rows * stride) by (nonlinear_arith)
                requires
                    0 <= y <= rows,
                    0 < stride,
            ;
            if (x as i64 + y as i64) % 2 == 0 {
                squares.push(Rect { x: x * stride, y: y * stride, width: stride, height: stride });
            }
            y += 1;
            assert(squares@ =~= before + filled_in_column(x as int, y as int, stride as int));
        }
        x += 1;
    }
    squares
}

/// Whether a rectangle covers a pixel.
pub open spec fn covers(r: Rect, px: int, py: int) -> bool {
    r.x <= px < r.x + r.width && r.y <= py < r.y + r.height
}

/// Some rectangle covers the pixel.
pub open spec fn covered(squares: Seq<Rect>, px: int, py: int) -> bool {
    exists|i: int| 0 <= i < squares.len() && covers(#[trigger] squares[i], px, py)
}

/// A pixel is filled exactly if it lies on a whole square whose column and row
/// numbers have an even sum: neighbouring squares alternate, and the top-left
/// one is filled.
pub proof fn law_checkered_alternates(columns: int, rows: int, stride: int, px: int, py: int)
    requires
        0 < stride,
        0 <= columns,
        0 <= rows,
        columns * stride <= i32::MAX,
        rows * stride <= i32::MAX,
        0 <= px,
        0 <= py,
    ensures
        covered(filled_squares(columns, rows, stride), px, py) <==> px / stride < columns && py
            / stride < rows && (px / stride + py / stride) % 2 == 0,
    decreases columns,
{
    let squares = filled_squares(columns, rows, stride);
    vstd::arithmetic::div_mod::lemma_div_pos_is_pos(px, stride);
    vstd::arithmetic::div_mod::lemma_div_pos_is_pos(py, stride);
    if columns > 0 {
        let head = filled_squares(columns - 1, rows, stride);
        let column = filled_in_column(columns - 1, rows, stride);
        assert((columns - 1) * stride <= columns * stride) by (nonlinear_arith)
            requires
                0 < stride,
        ;
        law_checkered_alternates(columns - 1, rows, stride, px, py);
        lemma_column_alternates(columns - 1, rows, stride, px, py);
        assert(covered(squares, px, py) <==> covered(head, px, py) || covered(column, px, py)) by {
            if covered(squares, px, py) {
                let i = choose|i: int| 0 <= i < squares.len() && covers(#[trigger] squares[i], px, py);
                if i < head.len() {
                    assert(covers(head[i], px, py));
                } else {
                    assert(covers(column[i - head.len()], px, py));
                }
            }
            if covered(head, px, py) {
                let i = choose|i: int| 0 <= i < head.len() && covers(#[trigger] head[i], px, py);
                assert(covers(squares[i], px, py));
            }
            if covered(column, px, py) {
                let i = choose|i: int| 0 <= i < column.len() && covers(#[trigger] column[i], px, py);
                assert(covers(squares[i + head.len()], px, py));
            }
        }
    }
}

/// The filled squares of one column cover the pixels of its even squares.
proof fn lemma_column_alternates(x: int, rows: int, stride: int, px: int, py: int)
    requires
        0 < stride,
        0 <= x,
        0 <= rows,
        (x + 1) * stride <= i32::MAX,
        rows * stride <= i32::MAX,
        0 <= px,
        0 <= py,
    ensures
        covered(filled_in_column(x, rows, stride), px, py) <==> px / stride == x && py / stride < rows
            && (x + py / stride) % 2 == 0,
    decreases rows,
{
    vstd::arithmetic::div_mod::lemma_div_pos_is_pos(py, stride);
    if rows > 0 {
        let y = rows - 1;
        let column = filled_in_column(x, rows, stride);
        let head = filled_in_column(x, y, stride);
        assert(y * stride <= rows * stride) by (nonlinear_arith)
            requires
                y == rows - 1,
                0 < stride,
        ;
        lemma_column_alternates(x, y, stride, px, py);
        if (x + y) % 2 == 0 {
            let square = board_square(x, y, stride);
            lemma_square_covers(x, y, stride, px, py);
            assert(covered(column, px, py) <==> covered(head, px, py) || covers(square, px, py)) by {
                if covered(column, px, py) {
                    let i = choose|i: int|
                        0 <= i < column.len() && covers(#[trigger] column[i], px, py);
                    if i < head.len() {
                        assert(covers(head[i], px, py));
                    }
                }
                if covered(head, px, py) {
                    let i = choose|i: int| 0 <= i < head.len() && covers(#[trigger] head[i], px, py);
                    assert(covers(column[i], px, py));
                }
                if covers(square, px, py) {
                    assert(covers(column[head.len() as int], px, py));
                }
            }
        }
    }
}

/// A square covers the pixels whose quotients by the stride name it.
proof fn lemma_square_covers(x: int, y: int, stride: int, px: int, py: int)
    requires
        0 < stride,
        0 <= x,
        0 <= y,
        (x + 1) * stride <= i32::MAX,
        (y + 1) * stride <= i32::MAX,
        0 <= px,
        0 <= py,
    ensures
        covers(board_square(x, y, stride), px, py) <==> px / stride == x && py / stride == y,
{
    assert(0 <= x * stride && (x + 1) * stride == x * stride + stride) by (nonlinear_arith)
        requires
            0 <= x,
            0 < stride,
    ;
    assert(0 <= y * stride && (y + 1) * stride == y * stride + stride) by (nonlinear_arith)
        requires
            0 <= y,
            0 < stride,
    ;
    assert(stride <= i32::MAX);
    assert((x * stride <= px < x * stride + stride) <==> px / stride == x) by (nonlinear_arith)
        requires
            0 < stride,
    ;
    assert((y * stride <= py < y * stride + stride) <==> py / stride == y) by (nonlinear_arith)
        requires
            0 < stride,
    ;
}

// ---- axis lines ----

/// The full-span line at position `value`.
pub open spec fn full_span(size: Size, value: i32, axis: Axis) -> Stroke {
    match axis {
        Axis::X => Stroke {
            from: Point2i { x: value, y: 0 },
            to: Point2i { x: value, y: (size.height - 1) as i32 },
        },
        Axis::Y => Stroke {
            from: Point2i { x: 0, y: value },
            to: Point2i { x: (size.width - 1) as i32, y: value },
        },
    }
}

/// Full-span lines at each position in `values`. `specified_by` selects whether
/// the values are x (vertical lines) or y (horizontal lines).
pub fn generate_axis_lines(size: Size, values: &Vec<i32>, specified_by: Axis) -> (strokes: Vec<Stroke>)
    requires
        size.width >= 0,
        size.height >= 0,
    ensures
        strokes@ == values@.map_values(|value: i32| full_span(size, value, specified_by)),
{
    let mut strokes: Vec<Stroke> = Vec::new();
    let mut i: usize = 0;
    while i < values.len()
        invariant
            size.width >= 0,
            size.height >= 0,
            i <= values.len(),
            strokes@.len() == i,
            forall|j: int|
                0 <= j < i ==> #[trigger] strokes@[j] == full_span(size, values@[j], specified_by),
        decreases values.len() - i,
    {
        let value: i32 = values[i];
        let stroke = match specified_by {
            Axis::X => Stroke {
                from: Point2i { x: value, y: 0 },
                to: Point2i { x: value, y: size.height - 1 },
            },
            Axis::Y => Stroke {
                from: Point2i { x: 0, y: value },
                to: Point2i { x: size.width - 1, y: value },
            },
        };
        strokes.push(stroke);
        i += 1;
    }
    assert(strokes@ =~= values@.map_values(|value: i32| full_span(size, value, specified_by)));
    strokes
}

/// A pixel of the image is lit exactly if it lies in a square that fits whole and whose
/// column and row are together even: squares of the same color meet at corners only,
/// and the top left one is lit.
pub proof fn law_checkered_pixels(
    height: i32,
    width: i32,
    stride: i32,
    squares: Vec<Rect>,
    px: int,
    py: int,
)
    requires
        call_ensures(generate_checkered, (height, width, stride), squares),
        0 <= height,
        0 <= width,
        0 <= px,
        0 <= py,
    ensures
        stride > 0 ==> {
            let (column, row) = (px / (stride as int), py / (stride as int));
            covered(squares@, px, py) <==> (column + 1) * stride <= width && (row + 1) * stride
                <= height && (column + row) % 2 == 0
        },
        stride < 0 ==> !covered(squares@, px, py),
{
    if stride > 0 {
        let (s, w, h) = (stride as int, width as int, height as int);
        let (columns, rows) = (w / s, h / s);
        lemma_whole_squares(w, s, px / s);
        lemma_whole_squares(h, s, py / s);
        law_checkered_alternates(columns, rows, s, px, py);
    } else if stride < 0 {
        assert(squares@.len() == 0);
    }
}

/// A square fits whole exactly if its number is below the number of those that do.
pub(crate) proof fn lemma_whole_squares(length: int, stride: int, k: int)
    requires
        0 <= length <= i32::MAX,
        0 < stride,
    ensures
        0 <= length / stride,
        (length / stride) * stride <= length <= i32::MAX,
        k < length / stride <==> (k + 1) * stride <= length,
{
    let n = length / stride;
    lemma_fundamental_div_mod(length, stride);
    lemma_div_pos_is_pos(length, stride);
    assert(n * stride == stride * n) by (nonlinear_arith);
    assert((n + 1) * stride == n * stride + stride) by (nonlinear_arith);
    if k < n {
        assert((k + 1) * stride <= n * stride) by (nonlinear_arith)
            requires
                k + 1 <= n,
                0 < stride,
        ;
    } else {
        assert((k + 1) * stride >= (n + 1) * stride) by (nonlinear_arith)
            requires
                k >= n,
                0 < stride,
        ;
    }
}

/// Every square has the stride as its sides, stands a whole number of strides from the
/// top left corner and lies in the image. They are listed column by column, downwards,
/// each second one.
pub proof fn law_squares_are_whole(
    height: i32,
    width: i32,
    stride: i32,
    squares: Vec<Rect>,
    i: int,
)
    requires
        call_ensures(generate_checkered, (height, width, stride), squares),
        0 <= height,
        0 <= width,
        0 < stride,
        0 <= i < squares@.len(),
    ensures
        squares@[i].width == stride,
        squares@[i].height == stride,
        squares@[i].x % stride == 0,
        squares@[i].y % stride == 0,
        0 <= squares@[i].x <= width - stride,
        0 <= squares@[i].y <= height - stride,
        i + 1 < squares@.len() ==> {
            ||| squares@[i + 1].x > squares@[i].x
            ||| squares@[i + 1].x == squares@[i].x && squares@[i + 1].y == squares@[i].y + 2 * stride
        },
{
    let (s, w, h) = (stride as int, width as int, height as int);
    lemma_whole_squares(w, s, 0);
    lemma_whole_squares(h, s, 0);
    let (x, y) = lemma_square(w / s, h / s, s, i);
    lemma_whole_squares(w, s, x);
    lemma_whole_squares(h, s, y);
    lemma_square_at(x, y, s);
}

/// Where a square stands.
proof fn lemma_square_at(x: int, y: int, stride: int)
    requires
        0 < stride <= i32::MAX,
        0 <= x,
        0 <= y,
        (x + 1) * stride <= i32::MAX,
        (y + 1) * stride <= i32::MAX,
    ensures
        board_square(x, y, stride).x == x * stride,
        board_square(x, y, stride).y == y * stride,
        (x + 1) * stride == x * stride + stride,
        (y + 1) * stride == y * stride + stride,
        (x * stride) % stride == 0,
        (y * stride) % stride == 0,
        0 <= x * stride,
        0 <= y * stride,
{
    assert((x + 1) * stride == x * stride + stride) by (nonlinear_arith);
    assert((y + 1) * stride == y * stride + stride) by (nonlinear_arith);
    assert(0 <= x * stride && 0 <= y * stride) by (nonlinear_arith)
        requires
            0 <= x,
            0 <= y,
            0 < stride,
    ;
    lemma_mod_multiples_basic(x, stride);
    lemma_mod_multiples_basic(y, stride);
}

/// The squares of a column: each second one, downwards.
proof fn lemma_square_in_column(x: int, rows: int, stride: int, i: int)
    requires
        0 <= x,
        0 <= i < filled_in_column(x, rows, stride).len(),
    ensures
        0 <= 2 * i + x % 2 < rows,
        filled_in_column(x, rows, stride)[i] == board_square(x, 2 * i + x % 2, stride),
        filled_in_column(x, rows, stride).len() == (rows + 1 - x % 2) / 2,
    decreases rows,
{
    let before = filled_in_column(x, rows - 1, stride);
    lemma_column_len(x, rows - 1, stride);
    if i < before.len() {
        lemma_square_in_column(x, rows - 1, stride, i);
    }
    lemma_column_len(x, rows, stride);
}

/// How many squares of a column are filled.
proof fn lemma_column_len(x: int, rows: int, stride: int)
    requires
        0 <= x,
    ensures
        rows >= 0 ==> filled_in_column(x, rows, stride).len() == (rows + 1 - x % 2) / 2,
        rows < 0 ==> filled_in_column(x, rows, stride).len() == 0,
    decreases rows,
{
    if rows > 0 {
        lemma_column_len(x, rows - 1, stride);
    }
}

/// The column and row of a square, and where the next one stands.
proof fn lemma_square(columns: int, rows: int, stride: int, i: int) -> (at: (int, int))
    requires
        0 < stride,
        stride <= i32::MAX,
        columns * stride <= i32::MAX,
        rows * stride <= i32::MAX,
        0 <= i < filled_squares(columns, rows, stride).len(),
    ensures
        0 <= at.0 < columns,
        0 <= at.1 < rows,
        filled_squares(columns, rows, stride)[i] == board_square(at.0, at.1, stride),
        i + 1 < filled_squares(columns, rows, stride).len() ==> {
            let (a, b) = (
                filled_squares(columns, rows, stride)[i],
                filled_squares(columns, rows, stride)[i + 1],
            );
            ||| b.x > a.x
            ||| b.x == a.x && b.y == a.y + 2 * stride
        },
    decreases columns,
{
    let before = filled_squares(columns - 1, rows, stride);
    let column = filled_in_column(columns - 1, rows, stride);
    let n = before.len() as int;
    let all = filled_squares(columns, rows, stride);
    assert((columns - 1) * stride + stride == columns * stride) by (nonlinear_arith);
    if i < n {
        let at = lemma_square(columns - 1, rows, stride, i);
        if i + 1 == n && i + 1 < all.len() {
            lemma_square_in_column(columns - 1, rows, stride, 0);
            assert(all[i + 1] == column[0]);
            assert(at.0 * stride < (columns - 1) * stride && (at.0 + 1) * stride <= (columns - 1)
                * stride) by (nonlinear_arith)
                requires
                    at.0 + 1 <= columns - 1,
                    0 < stride,
            ;
            assert((at.1 + 1) * stride <= rows * stride) by (nonlinear_arith)
                requires
                    at.1 + 1 <= rows,
                    0 < stride,
            ;
            lemma_square_at(at.0, at.1, stride);
            let y = (columns - 1) % 2;
            assert((y + 1) * stride <= rows * stride) by (nonlinear_arith)
                requires
                    y + 1 <= rows,
                    0 < stride,
            ;
            lemma_square_at(columns - 1, y, stride);
        }
        at
    } else {
        let k = i - n;
        lemma_square_in_column(columns - 1, rows, stride, k);
        let y = 2 * k + (columns - 1) % 2;
        if i + 1 < all.len() {
            lemma_square_in_column(columns - 1, rows, stride, k + 1);
            assert(all[i + 1] == column[k + 1]);
            assert((y + 3) * stride <= rows * stride && (y + 1) * stride <= rows * stride && (y + 2)
                * stride == y * stride + 2 * stride) by (nonlinear_arith)
                requires
                    y + 3 <= rows,
                    0 < stride,
            ;
            lemma_square_at(columns - 1, y, stride);
            lemma_square_at(columns - 1, y + 2, stride);
        }
        (columns - 1, y)
    }
}

/// For every position one line is drawn, in order, from one border of the image to the
/// other: down the image at an x, across it at a y.
pub proof fn law_lines_span_the_image(
    size: Size,
    values: &Vec<i32>,
    axis: Axis,
    strokes: Vec<Stroke>,
    i: int,
)
    requires
        call_ensures(generate_axis_lines, (size, values, axis), strokes),
        size.width >= 0,
        size.height >= 0,
        0 <= i < values@.len(),
    ensures
        strokes@.len() == values@.len(),
        axis == Axis::X ==> strokes@[i].from.x == values@[i] && strokes@[i].to.x == values@[i]
            && strokes@[i].from.y == 0 && strokes@[i].to.y == size.height - 1,
        axis == Axis::Y ==> strokes@[i].from.y == values@[i] && strokes@[i].to.y == values@[i]
            && strokes@[i].from.x == 0 && strokes@[i].to.x == size.width - 1,
{
}

} // verus!
