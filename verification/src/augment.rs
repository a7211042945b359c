//! Random translation of 28 x 28 images: the scan that measures the margins
//! around the ink, and the shifts that move the image into them.

use crate::idx::{all_of_len, views};
use crate::random::{Draw, RandomSource};
use vstd::prelude::*;

verus! {

/// Number of rows, and of columns, of an image.
pub const SIDE: usize = 28;

/// Number of pixels of an image.
pub const IMAGE_LEN: usize = 784;

/// Whether `img` has the length of an image. Pixels are stored row by row.
pub open spec fn is_image(img: Seq<u8>) -> bool {
    img.len() == IMAGE_LEN
}

/// The pixel in row `row` and column `col`.
pub open spec fn pixel(img: Seq<u8>, row: int, col: int) -> u8 {
    img[row * SIDE + col]
}

/// Whether the pixel in row `row` and column `col` is foreground: any value
/// but 0.
pub open spec fn ink(img: Seq<u8>, row: int, col: int) -> bool {
    pixel(img, row, col) != 0
}

/// Whether row `row` holds a foreground pixel.
pub open spec fn row_has_ink(img: Seq<u8>, row: int) -> bool {
    exists|col: int| 0 <= col < SIDE && ink(img, row, col)
}

/// Whether column `col` holds a foreground pixel.
pub open spec fn col_has_ink(img: Seq<u8>, col: int) -> bool {
    exists|row: int| 0 <= row < SIDE && ink(img, row, col)
}

/// Whether the image holds a foreground pixel.
pub open spec fn has_ink(img: Seq<u8>) -> bool {
    exists|row: int| 0 <= row < SIDE && row_has_ink(img, row)
}

/// Whether a row below row `top` is all background.
pub open spec fn blank_row_below(img: Seq<u8>, top: int) -> bool {
    exists|row: int| top < row < SIDE && !row_has_ink(img, row)
}

/// The box that the scan finds around the ink of an image.
#[derive(Clone, Copy, Debug, PartialEq, Eq, Structural)]
pub struct Bounds {
    /// First row with ink.
    pub top: usize,
    /// Last row of the run of ink rows that starts at `top`, if a blank row
    /// follows that run.
    pub bottom: usize,
    /// First column with ink.
    pub left: usize,
    /// Last column with ink.
    pub right: usize,
}

/// `top` is the first row with ink, or 0 in an image without ink.
pub open spec fn is_top_bound(img: Seq<u8>, top: int) -> bool {
    if has_ink(img) {
        &&& 0 <= top < SIDE
        &&& row_has_ink(img, top)
        &&& forall|row: int| 0 <= row < top ==> !row_has_ink(img, row)
    } else {
        top == 0
    }
}

/// `bottom` is the row just above the first blank row below `top`. Where the
/// image has no ink, or no blank row below `top`, it is 0.
pub open spec fn is_bottom_bound(img: Seq<u8>, top: int, bottom: int) -> bool {
    if has_ink(img) && blank_row_below(img, top) {
        &&& top <= bottom < SIDE - 1
        &&& !row_has_ink(img, bottom + 1)
        &&& forall|row: int| top < row <= bottom ==> row_has_ink(img, row)
    } else {
        bottom == 0
    }
}

/// `left` is the first column with ink, or 0 in an image without ink.
pub open spec fn is_left_bound(img: Seq<u8>, left: int) -> bool {
    if has_ink(img) {
        &&& 0 <= left < SIDE
        &&& col_has_ink(img, left)
        &&& forall|col: int| 0 <= col < left ==> !col_has_ink(img, col)
    } else {
        left == 0
    }
}

/// `right` is the last column with ink, or 0 in an image without ink.
pub open spec fn is_right_bound(img: Seq<u8>, right: int) -> bool {
    if has_ink(img) {
        &&& 0 <= right < SIDE
        &&& col_has_ink(img, right)
        &&& forall|col: int| right < col < SIDE ==> !col_has_ink(img, col)
    } else {
        right == 0
    }
}

/// Whether `b` is the box that the scan finds in `img`.
pub open spec fn is_bounds_of(img: Seq<u8>, b: Bounds) -> bool {
    &&& is_top_bound(img, b.top as int)
    &&& is_bottom_bound(img, b.top as int, b.bottom as int)
    &&& is_left_bound(img, b.left as int)
    &&& is_right_bound(img, b.right as int)
}

/// The box that the scan finds in `img`.
pub open spec fn bounds_of(img: Seq<u8>) -> Bounds {
    choose|b: Bounds| is_bounds_of(img, b)
}

/// An image has one box only.
pub proof fn lemma_bounds_unique(img: Seq<u8>, a: Bounds, b: Bounds)
    requires
        is_bounds_of(img, a),
        is_bounds_of(img, b),
    ensures
        a == b,
{
    if has_ink(img) {
        assert(a.top == b.top);
        assert(a.left == b.left);
        assert(a.right == b.right);
        if blank_row_below(img, a.top as int) {
            assert(a.bottom == b.bottom);
        }
    }
}

/// Finds the first foreground pixel of a row; `SIDE` where the row has none.
fn first_ink_col(image: &[u8], row: usize) -> (col: usize)
    requires
        is_image(image@),
        row < SIDE,
    ensures
        col <= SIDE,
        col < SIDE ==> ink(image@, row as int, col as int),
        col == SIDE ==> !row_has_ink(image@, row as int),
        forall|c: int| 0 <= c < col ==> !ink(image@, row as int, c),
{
    let mut col: usize = 0;
    while col < SIDE
        invariant
            is_image(image@),
            row < SIDE,
            col <= SIDE,
            forall|c: int| 0 <= c < col ==> !ink(image@, row as int, c),
        decreases SIDE - col,
    {
        if image[row * SIDE + col] != 0 {
            return col;
        }
        col += 1;
    }
    col
}

/// Finds the last foreground pixel of a row that has one.
fn last_ink_col(image: &[u8], row: usize) -> (col: usize)
    requires
        is_image(image@),
        row < SIDE,
        row_has_ink(image@, row as int),
    ensures
        col < SIDE,
        ink(image@, row as int, col as int),
        forall|c: int| col < c < SIDE ==> !ink(image@, row as int, c),
{
    let mut col: usize = SIDE - 1;
    while image[row * SIDE + col] == 0
        invariant
            is_image(image@),
            row < SIDE,
            col < SIDE,
            row_has_ink(image@, row as int),
            forall|c: int| col < c < SIDE ==> !ink(image@, row as int, c),
        decreases col,
    {
        assert(col > 0) by {
            let c = choose|c: int| 0 <= c < SIDE && ink(image@, row as int, c);
            assert(c < col);
        }
        col -= 1;
    }
    col
}

/// Scans an image row by row for the box around its ink.
///
/// The top of the box is the first row with ink. Its bottom is the last row
/// before the first blank row below the top, so ink below a gap is not
/// counted; where no blank row follows, the bottom stays 0. Left and right
/// are the first and the last column with ink in any row. An image without
/// ink has a box of zeros.
pub fn scan_bounds(image: &[u8]) -> (b: Bounds)
    requires
        is_image(image@),
    ensures
        is_bounds_of(image@, b),
        b == bounds_of(image@),
        b.top < SIDE,
        b.bottom < SIDE - 1,
        b.left <= b.right < SIDE,
{
    let mut top: usize = 0;
    let mut bottom: usize = 0;
    let mut left: usize = 0;
    let mut right: usize = 0;
    let mut seen_ink = false;
    let mut seen_gap = false;
    let ghost mut left_row: int = 0;
    let ghost mut right_row: int = 0;
    let mut row: usize = 0;
    while row < SIDE
        invariant
            is_image(image@),
            row <= SIDE,
            !seen_ink ==> top == 0 && bottom == 0 && left == 0 && right == 0 && !seen_gap,
            !seen_ink ==> forall|r: int| 0 <= r < row ==> !row_has_ink(image@, r),
            seen_ink ==> top < row && row_has_ink(image@, top as int),
            seen_ink ==> forall|r: int| 0 <= r < top ==> !row_has_ink(image@, r),
            seen_ink ==> left <= right < SIDE,
            seen_ink ==> 0 <= left_row < row && ink(image@, left_row, left as int),
            seen_ink ==> 0 <= right_row < row && ink(image@, right_row, right as int),
            seen_ink ==> forall|r: int, c: int|
                0 <= r < row && 0 <= c < SIDE && #[trigger] ink(image@, r, c) ==> left <= c
                    <= right,
            !seen_gap ==> bottom == 0,
            seen_ink && !seen_gap ==> forall|r: int| top < r < row ==> row_has_ink(image@, r),
            seen_gap ==> top <= bottom && bottom + 1 < row && !row_has_ink(
                image@,
                bottom + 1,
            ),
            seen_gap ==> forall|r: int| top < r <= bottom ==> row_has_ink(image@, r),
        decreases SIDE - row,
    {
        let first = first_ink_col(image, row);
        if first < SIDE {
            assert(row_has_ink(image@, row as int));
            let last = last_ink_col(image, row);
            if !seen_ink {
                top = row;
                left = first;
                right = last;
                proof {
                    left_row = row as int;
                    right_row = row as int;
                }
                seen_ink = true;
            } else {
                if first < left {
                    left = first;
                    proof {
                        left_row = row as int;
                    }
                }
                if last > right {
                    right = last;
                    proof {
                        right_row = row as int;
                    }
                }
            }
        } else if seen_ink && !seen_gap {
            bottom = row - 1;
            seen_gap = true;
        }
        assert forall|r: int, c: int|
            seen_ink && 0 <= r <= row && 0 <= c < SIDE && #[trigger] ink(image@, r, c) implies left
            <= c <= right by {
            assert(row_has_ink(image@, r));
        }
        row += 1;
    }
    let b = Bounds { top, bottom, left, right };
    proof {
        if seen_ink {
            assert(has_ink(image@));
            assert(col_has_ink(image@, left as int));
            assert(col_has_ink(image@, right as int));
            if seen_gap {
                assert(blank_row_below(image@, top as int));
            }
        }
        assert(is_bounds_of(image@, b));
        lemma_bounds_unique(image@, b, bounds_of(image@));
    }
    b
}

/// How far an image is moved towards each of its four edges.
#[derive(Clone, Copy, Debug, PartialEq, Eq, Structural)]
pub struct Shifts {
    pub left: usize,
    pub right: usize,
    pub top: usize,
    pub bottom: usize,
}

/// The image whose pixel in row `r` and column `c` is `f(r, c)`.
pub open spec fn image_of(f: spec_fn(int, int) -> u8) -> Seq<u8> {
    Seq::new(IMAGE_LEN as nat, |i: int| f(i / SIDE as int, i % SIDE as int))
}

/// Every row moved `n` columns to the left: the first `n` columns leave the
/// image and `n` columns of background enter at the right.
pub open spec fn shifted_left(img: Seq<u8>, n: int) -> Seq<u8> {
    image_of(
        |r: int, c: int|
            if c + n < SIDE {
                pixel(img, r, c + n)
            } else {
                0u8
            },
    )
}

/// Every row moved `n` columns to the right: the last `n` columns leave the
/// image and `n` columns of background enter at the left.
pub open spec fn shifted_right(img: Seq<u8>, n: int) -> Seq<u8> {
    image_of(
        |r: int, c: int|
            if c >= n {
                pixel(img, r, c - n)
            } else {
                0u8
            },
    )
}

/// The image moved `n` rows up: the first `n` rows leave it and `n` rows of
/// background enter at the bottom.
pub open spec fn shifted_up(img: Seq<u8>, n: int) -> Seq<u8> {
    image_of(
        |r: int, c: int|
            if r + n < SIDE {
                pixel(img, r + n, c)
            } else {
                0u8
            },
    )
}

/// The image moved `n` rows down: the last `n` rows leave it and `n` rows of
/// background enter at the top.
pub open spec fn shifted_down(img: Seq<u8>, n: int) -> Seq<u8> {
    image_of(
        |r: int, c: int|
            if r >= n {
                pixel(img, r - n, c)
            } else {
                0u8
            },
    )
}

/// The four moves one after the other: left, then right, then up, then down.
pub open spec fn translated(img: Seq<u8>, s: Shifts) -> Seq<u8> {
    shifted_down(
        shifted_up(shifted_right(shifted_left(img, s.left as int), s.right as int), s.top as int),
        s.bottom as int,
    )
}

/// The pixel of `translated(img, s)` in row `r` and column `c`, written out:
/// the source pixel where the moves leave one, background elsewhere.
pub open spec fn translated_pixel(img: Seq<u8>, s: Shifts, r: int, c: int) -> u8 {
    if r >= s.bottom && r - s.bottom + s.top < SIDE && c >= s.right && c - s.right + s.left
        < SIDE {
        pixel(img, r - s.bottom + s.top, c - s.right + s.left)
    } else {
        0u8
    }
}

/// Row and column of a pixel are recovered from its place in the sequence.
proof fn lemma_pixel_place(r: int, c: int)
    requires
        0 <= r < SIDE,
        0 <= c < SIDE,
    ensures
        0 <= r * SIDE + c < IMAGE_LEN,
        (r * SIDE + c) / SIDE as int == r,
        (r * SIDE + c) % SIDE as int == c,
{
}

/// The four moves in sequence amount to one move of every pixel: the image is
/// translated, and what is pushed over an edge by one move does not come back
/// with the next.
pub proof fn lemma_translated_pixel(img: Seq<u8>, s: Shifts, r: int, c: int)
    requires
        0 <= r < SIDE,
        0 <= c < SIDE,
    ensures
        is_image(translated(img, s)),
        pixel(translated(img, s), r, c) == translated_pixel(img, s, r, c),
{
    let a = shifted_left(img, s.left as int);
    let b = shifted_right(a, s.right as int);
    let u = shifted_up(b, s.top as int);
    let d = shifted_down(u, s.bottom as int);
    lemma_pixel_place(r, c);
    assert(pixel(d, r, c) == if r >= s.bottom {
        pixel(u, r - s.bottom, c)
    } else {
        0u8
    });
    if r >= s.bottom {
        let r1 = r - s.bottom;
        lemma_pixel_place(r1, c);
        assert(pixel(u, r1, c) == if r1 + s.top < SIDE {
            pixel(b, r1 + s.top, c)
        } else {
            0u8
        });
        if r1 + s.top < SIDE {
            let r2 = r1 + s.top;
            lemma_pixel_place(r2, c);
            assert(pixel(b, r2, c) == if c >= s.right {
                pixel(a, r2, c - s.right)
            } else {
                0u8
            });
            if c >= s.right {
                let c1 = c - s.right;
                lemma_pixel_place(r2, c1);
                assert(pixel(a, r2, c1) == if c1 + s.left < SIDE {
                    pixel(img, r2, c1 + s.left)
                } else {
                    0u8
                });
            }
        }
    }
}

/// Moves an image by the four shifts, in the order left, right, up, down;
/// vacated pixels become background.
pub fn shift_image(image: &[u8], shifts: Shifts) -> (out: Vec<u8>)
    requires
        is_image(image@),
    ensures
        out@ == translated(image@, shifts),
        is_image(out@),
{
    let mut out: Vec<u8> = Vec::new();
    let mut row: usize = 0;
    while row < SIDE
        invariant
            is_image(image@),
            row <= SIDE,
            out@.len() == row * SIDE,
            forall|r: int, c: int|
                0 <= r < row && 0 <= c < SIDE ==> #[trigger] pixel(out@, r, c) == translated_pixel(
                    image@,
                    shifts,
                    r,
                    c,
                ),
        decreases SIDE - row,
    {
        let mut col: usize = 0;
        while col < SIDE
            invariant
                is_image(image@),
                row < SIDE,
                col <= SIDE,
                out@.len() == row * SIDE + col,
                forall|r: int, c: int|
                    (0 <= r < row && 0 <= c < SIDE) || (r == row && 0 <= c < col)
                        ==> #[trigger] pixel(out@, r, c) == translated_pixel(
                        image@,
                        shifts,
                        r,
                        c,
                    ),
            decreases SIDE - col,
        {
            let ghost before = out@;
            let mut value: u8 = 0;
            if row >= shifts.bottom && shifts.top < SIDE && col >= shifts.right && shifts.left
                < SIDE {
                let source_row: usize = row - shifts.bottom + shifts.top;
                let source_col: usize = col - shifts.right + shifts.left;
                if source_row < SIDE && source_col < SIDE {
                    value = image[source_row * SIDE + source_col];
                }
            }
            out.push(value);
            assert forall|r: int, c: int|
                (0 <= r < row && 0 <= c < SIDE) || (r == row && 0 <= c < col + 1)
                implies #[trigger] pixel(out@, r, c) == translated_pixel(image@, shifts, r, c) by {
                if r == row && c == col {
                    assert(pixel(out@, r, c) == value);
                } else {
                    assert(pixel(out@, r, c) == pixel(before, r, c));
                }
            }
            col += 1;
        }
        row += 1;
    }
    proof {
        let goal = translated(image@, shifts);
        assert forall|i: int| 0 <= i < IMAGE_LEN implies out@[i] == goal[i] by {
            let r = i / SIDE as int;
            let c = i % SIDE as int;
            lemma_translated_pixel(image@, shifts, r, c);
            assert(out@[i] == pixel(out@, r, c));
            assert(goal[i] == pixel(goal, r, c));
        }
        lemma_translated_pixel(image@, shifts, 0, 0);
        assert(out@ =~= goal);
    }
    out
}

/// Whether `shift` may be drawn for a margin of `limit` rows or columns: any
/// amount below the margin, and none where there is no margin.
pub open spec fn shift_allowed(limit: int, shift: int) -> bool {
    if limit > 0 {
        0 <= shift < limit
    } else {
        shift == 0
    }
}

/// Whether the four shifts stay within the margins that the box `b` leaves:
/// `b.left` columns at the left, `27 - b.right` at the right, `b.top` rows at
/// the top and `27 - b.bottom` at the bottom.
pub open spec fn shifts_allowed(b: Bounds, s: Shifts) -> bool {
    &&& shift_allowed(b.left as int, s.left as int)
    &&& shift_allowed(SIDE - 1 - b.right, s.right as int)
    &&& shift_allowed(b.top as int, s.top as int)
    &&& shift_allowed(SIDE - 1 - b.bottom, s.bottom as int)
}

/// Whether `out` is `img` moved by the shifts `s`, and the box of `img` allows
/// them.
pub open spec fn augmented_by(img: Seq<u8>, s: Shifts, out: Seq<u8>) -> bool {
    shifts_allowed(bounds_of(img), s) && out == translated(img, s)
}

/// Whether `out` is `img` moved by shifts that the box of `img` allows.
pub open spec fn is_augmentation(img: Seq<u8>, out: Seq<u8>) -> bool {
    exists|s: Shifts| augmented_by(img, s, out)
}

/// What is drawn for a margin of `limit` rows or columns, `shift` being what
/// came of it: one number below the margin, which is the shift, and nothing
/// where there is no margin.
pub open spec fn draw_for(limit: int, shift: usize) -> Seq<Draw> {
    if limit > 0 {
        seq![Draw { bound: limit as usize, value: shift }]
    } else {
        Seq::empty()
    }
}

/// What is drawn for an image with the box `b`, `s` being the shifts that
/// came of it: the draws for the left, the right, the top and the bottom
/// margin, in that order.
pub open spec fn draws_for(b: Bounds, s: Shifts) -> Seq<Draw> {
    draw_for(b.left as int, s.left) + (draw_for(SIDE - 1 - b.right, s.right) + (draw_for(
        b.top as int,
        s.top,
    ) + draw_for(SIDE - 1 - b.bottom, s.bottom)))
}

/// What is drawn for the first `n` of `images`, one after the other,
/// `shifts` being the shifts that came of it.
pub open spec fn draws_for_all(images: Seq<Seq<u8>>, shifts: Seq<Shifts>, n: int) -> Seq<Draw>
    decreases n,
{
    if n <= 0 {
        Seq::empty()
    } else {
        draws_for_all(images, shifts, n - 1) + draws_for(bounds_of(images[n - 1]), shifts[n - 1])
    }
}

/// Shifts of zero leave an image as it is.
pub proof fn lemma_no_shift(img: Seq<u8>)
    requires
        is_image(img),
    ensures
        translated(img, Shifts { left: 0, right: 0, top: 0, bottom: 0 }) == img,
{
    let s = Shifts { left: 0, right: 0, top: 0, bottom: 0 };
    let moved = translated(img, s);
    assert forall|i: int| 0 <= i < IMAGE_LEN implies moved[i] == img[i] by {
        let r = i / SIDE as int;
        let c = i % SIDE as int;
        lemma_translated_pixel(img, s, r, c);
        assert(moved[i] == pixel(moved, r, c));
    }
    lemma_translated_pixel(img, s, 0, 0);
    assert(moved =~= img);
}

/// One margin: where two allowed shifts took the same draw and the same
/// draws followed, the shifts are the same, and so is what followed.
proof fn lemma_draw_decides(
    limit: int,
    first: usize,
    second: usize,
    first_rest: Seq<Draw>,
    second_rest: Seq<Draw>,
)
    requires
        shift_allowed(limit, first as int),
        shift_allowed(limit, second as int),
        draw_for(limit, first) + first_rest == draw_for(limit, second) + second_rest,
    ensures
        first == second,
        first_rest == second_rest,
{
    let a = draw_for(limit, first) + first_rest;
    let b = draw_for(limit, second) + second_rest;
    if limit > 0 {
        assert(a[0] == b[0]);
        assert(a.skip(1) =~= first_rest);
        assert(b.skip(1) =~= second_rest);
    } else {
        assert(a =~= first_rest);
        assert(b =~= second_rest);
    }
}

/// The draws decide: for one image, two sets of shifts within its margins
/// that took the same numbers from the source are the same shifts, and end
/// with the same image. A source that repeats its draws repeats the image.
pub proof fn lemma_same_draws_same_image(img: Seq<u8>, first_draw: Shifts, second_draw: Shifts)
    requires
        shifts_allowed(bounds_of(img), first_draw),
        shifts_allowed(bounds_of(img), second_draw),
        draws_for(bounds_of(img), first_draw) == draws_for(bounds_of(img), second_draw),
    ensures
        first_draw == second_draw,
        translated(img, first_draw) == translated(img, second_draw),
{
    let b = bounds_of(img);
    let p = first_draw;
    let q = second_draw;
    let none = Seq::<Draw>::empty();
    let p_bottom = draw_for(SIDE - 1 - b.bottom, p.bottom);
    let q_bottom = draw_for(SIDE - 1 - b.bottom, q.bottom);
    let p_top = draw_for(b.top as int, p.top) + p_bottom;
    let q_top = draw_for(b.top as int, q.top) + q_bottom;
    let p_right = draw_for(SIDE - 1 - b.right, p.right) + p_top;
    let q_right = draw_for(SIDE - 1 - b.right, q.right) + q_top;
    lemma_draw_decides(b.left as int, p.left, q.left, p_right, q_right);
    lemma_draw_decides(SIDE - 1 - b.right, p.right, q.right, p_top, q_top);
    lemma_draw_decides(b.top as int, p.top, q.top, p_bottom, q_bottom);
    assert(p_bottom + none =~= p_bottom);
    assert(q_bottom + none =~= q_bottom);
    lemma_draw_decides(SIDE - 1 - b.bottom, p.bottom, q.bottom, none, none);
}

/// In an image without ink the box is all zeros, and no move changes the
/// image, whatever the shifts.
pub proof fn lemma_blank_image(img: Seq<u8>, s: Shifts)
    requires
        is_image(img),
        forall|i: int| 0 <= i < img.len() ==> img[i] == 0,
    ensures
        !has_ink(img),
        bounds_of(img) == (Bounds { top: 0, bottom: 0, left: 0, right: 0 }),
        translated(img, s) == img,
{
    assert forall|r: int, c: int| 0 <= r < SIDE && 0 <= c < SIDE implies !ink(img, r, c) by {
        lemma_pixel_place(r, c);
    }
    let zeros = Bounds { top: 0, bottom: 0, left: 0, right: 0 };
    assert(is_bounds_of(img, zeros));
    lemma_bounds_unique(img, zeros, bounds_of(img));
    let moved = translated(img, s);
    assert forall|i: int| 0 <= i < IMAGE_LEN implies moved[i] == img[i] by {
        let r = i / SIDE as int;
        let c = i % SIDE as int;
        lemma_translated_pixel(img, s, r, c);
        assert(moved[i] == pixel(moved, r, c));
        if r >= s.bottom && r - s.bottom + s.top < SIDE && c >= s.right && c - s.right + s.left
            < SIDE {
            lemma_pixel_place(r - s.bottom + s.top, c - s.right + s.left);
        }
    }
    lemma_translated_pixel(img, s, 0, 0);
    assert(moved =~= img);
}

/// The least number below `n` for which `p` holds.
proof fn lemma_least(p: spec_fn(int) -> bool, n: int) -> (m: int)
    requires
        exists|k: int| 0 <= k < n && #[trigger] p(k),
    ensures
        0 <= m < n,
        p(m),
        forall|k: int| 0 <= k < m ==> !#[trigger] p(k),
    decreases n,
{
    if exists|k: int| 0 <= k < n - 1 && #[trigger] p(k) {
        lemma_least(p, n - 1)
    } else {
        n - 1
    }
}

/// Every image has a box, so `bounds_of` is the box of the image.
pub proof fn lemma_bounds_exist(img: Seq<u8>)
    ensures
        is_bounds_of(img, bounds_of(img)),
        bounds_of(img).top < SIDE,
        bounds_of(img).bottom < SIDE - 1,
        bounds_of(img).left <= bounds_of(img).right < SIDE,
{
    let side = SIDE as int;
    let b = if has_ink(img) {
        let inked_row = |k: int| row_has_ink(img, k);
        let inked_col = |k: int| col_has_ink(img, k);
        let inked_col_from_right = |k: int| col_has_ink(img, side - 1 - k);
        let some_row = choose|row: int| 0 <= row < SIDE && row_has_ink(img, row);
        let some_col = choose|col: int| 0 <= col < SIDE && ink(img, some_row, col);
        assert(inked_row(some_row));
        let top = lemma_least(inked_row, side);
        assert(col_has_ink(img, some_col));
        assert(inked_col(some_col));
        let left = lemma_least(inked_col, side);
        assert(inked_col_from_right(side - 1 - left));
        let from_right = lemma_least(inked_col_from_right, side);
        let right = side - 1 - from_right;
        assert forall|col: int| right < col < SIDE implies !col_has_ink(img, col) by {
            assert(!inked_col_from_right(side - 1 - col));
        }
        assert forall|col: int| 0 <= col < left implies !col_has_ink(img, col) by {
            assert(!inked_col(col));
        }
        assert forall|row: int| 0 <= row < top implies !row_has_ink(img, row) by {
            assert(!inked_row(row));
        }
        assert(left <= right) by {
            if right < left {
                assert(!col_has_ink(img, left));
            }
        }
        let bottom = if blank_row_below(img, top) {
            let blank_after = |k: int| !row_has_ink(img, top + 1 + k);
            let gap = choose|row: int| top < row < SIDE && !row_has_ink(img, row);
            assert(blank_after(gap - top - 1));
            let run = lemma_least(blank_after, side - 1 - top);
            assert(!row_has_ink(img, top + run + 1));
            assert forall|row: int| top < row <= top + run implies row_has_ink(img, row) by {
                assert(!blank_after(row - top - 1));
            }
            top + run
        } else {
            0
        };
        Bounds { top: top as usize, bottom: bottom as usize, left: left as usize, right: right as usize }
    } else {
        Bounds { top: 0, bottom: 0, left: 0, right: 0 }
    };
    assert(is_bounds_of(img, b));
    lemma_bounds_unique(img, b, bounds_of(img));
}

/// Shifts within the margins keep the ink inside the image from side to
/// side: every ink pixel moves `s.right - s.left` columns and stays on the
/// canvas. It moves `s.bottom - s.top` rows, and stays on the canvas where it
/// lies in a row up to the bottom of a box that a blank row closes; ink in
/// later rows may leave at the lower edge.
pub proof fn lemma_ink_kept(img: Seq<u8>, s: Shifts, r: int, c: int)
    requires
        shifts_allowed(bounds_of(img), s),
        0 <= r < SIDE,
        0 <= c < SIDE,
        ink(img, r, c),
    ensures
        0 <= c - s.left + s.right < SIDE,
        0 <= r - s.top + s.bottom,
        r - s.top + s.bottom < SIDE ==> pixel(
            translated(img, s),
            r - s.top + s.bottom,
            c - s.left + s.right,
        ) == pixel(img, r, c),
        blank_row_below(img, bounds_of(img).top as int) && r <= bounds_of(img).bottom ==> r
            - s.top + s.bottom < SIDE,
{
    lemma_bounds_exist(img);
    let b = bounds_of(img);
    assert(row_has_ink(img, r));
    assert(col_has_ink(img, c));
    assert(has_ink(img));
    assert(b.left <= c <= b.right);
    assert(b.top <= r);
    if r - s.top + s.bottom < SIDE {
        lemma_translated_pixel(img, s, r - s.top + s.bottom, c - s.left + s.right);
    }
}

/// Draws one shift for a margin of `limit` rows or columns: a number below
/// the margin, taken from the source. Nothing is drawn where there is no
/// margin, and the shift is 0.
pub fn draw_shift(limit: usize, rng: &mut RandomSource) -> (shift: usize)
    ensures
        shift_allowed(limit as int, shift as int),
        final(rng).seed() == old(rng).seed(),
        final(rng).drawn() == old(rng).drawn() + draw_for(limit as int, shift),
{
    if limit > 0 {
        let shift = rng.below(limit);
        assert(rng.drawn() =~= old(rng).drawn() + draw_for(limit as int, shift));
        shift
    } else {
        assert(rng.drawn() =~= old(rng).drawn() + draw_for(limit as int, 0));
        0
    }
}

/// Draws the four shifts for an image with the box `bounds`, in the order
/// left, right, top, bottom: each is a number below its margin, taken from
/// the source, or 0 without a draw where its margin is none.
pub fn draw_shifts(bounds: Bounds, rng: &mut RandomSource) -> (shifts: Shifts)
    ensures
        shifts_allowed(bounds, shifts),
        final(rng).seed() == old(rng).seed(),
        final(rng).drawn() == old(rng).drawn() + draws_for(bounds, shifts),
{
    let last: usize = SIDE - 1;
    let left = draw_shift(bounds.left, rng);
    let right = draw_shift(
        if bounds.right < last {
            last - bounds.right
        } else {
            0
        },
        rng,
    );
    let top = draw_shift(bounds.top, rng);
    let bottom = draw_shift(
        if bounds.bottom < last {
            last - bounds.bottom
        } else {
            0
        },
        rng,
    );
    let shifts = Shifts { left, right, top, bottom };
    assert(rng.drawn() =~= old(rng).drawn() + draws_for(bounds, shifts));
    shifts
}

/// Moves one image by random shifts within the margins around its ink. The
/// shifts are the numbers taken from the source for the four margins.
pub fn augment_image(image: &[u8], rng: &mut RandomSource) -> (out: Vec<u8>)
    requires
        is_image(image@),
    ensures
        is_image(out@),
        is_augmentation(image@, out@),
        exists|s: Shifts|
            augmented_by(image@, s, out@) && final(rng).drawn() == old(rng).drawn() + draws_for(
                bounds_of(image@),
                s,
            ),
        final(rng).seed() == old(rng).seed(),
        !has_ink(image@) ==> out@ == image@,
{
    let bounds = scan_bounds(image);
    let shifts = draw_shifts(bounds, rng);
    let out = shift_image(image, shifts);
    proof {
        assert(augmented_by(image@, shifts, out@));
        if !has_ink(image@) {
            assert forall|i: int| 0 <= i < image@.len() implies image@[i] == 0 by {
                let r = i / SIDE as int;
                let c = i % SIDE as int;
                assert(image@[i] == pixel(image@, r, c));
                if image@[i] != 0 {
                    assert(ink(image@, r, c));
                    assert(row_has_ink(image@, r));
                }
            }
            lemma_blank_image(image@, shifts);
        }
    }
    out
}

/// Whether every member of `images` has the length of an image.
pub open spec fn are_images(images: Seq<Vec<u8>>) -> bool {
    all_of_len(views(images), IMAGE_LEN as int)
}

/// What is drawn for the first images does not depend on later shifts.
proof fn lemma_draws_for_all_push(images: Seq<Seq<u8>>, shifts: Seq<Shifts>, s: Shifts, n: int)
    requires
        0 <= n <= shifts.len(),
    ensures
        draws_for_all(images, shifts.push(s), n) == draws_for_all(images, shifts, n),
    decreases n,
{
    if n > 0 {
        lemma_draws_for_all_push(images, shifts, s, n - 1);
        assert(shifts.push(s)[n - 1] == shifts[n - 1]);
    }
}

/// Moves every image by random shifts of its own. The result has the images
/// in the order of `images`, which is left as it is. The shifts are the
/// numbers taken from the source, image after image.
pub fn augment(images: &Vec<Vec<u8>>, rng: &mut RandomSource) -> (out: Vec<Vec<u8>>)
    requires
        are_images(images@),
    ensures
        out@.len() == images@.len(),
        are_images(out@),
        forall|i: int|
            0 <= i < images@.len() ==> is_augmentation(images@[i]@, #[trigger] out@[i]@),
        exists|shifts: Seq<Shifts>|
            {
                &&& shifts.len() == images@.len()
                &&& forall|i: int|
                    0 <= i < images@.len() ==> augmented_by(
                        images@[i]@,
                        #[trigger] shifts[i],
                        out@[i]@,
                    )
                &&& final(rng).drawn() == old(rng).drawn() + draws_for_all(
                    views(images@),
                    shifts,
                    images@.len() as int,
                )
            },
        final(rng).seed() == old(rng).seed(),
{
    let mut out: Vec<Vec<u8>> = Vec::new();
    let ghost mut done: Seq<Shifts> = Seq::empty();
    assert(rng.drawn() =~= old(rng).drawn() + draws_for_all(views(images@), done, 0));
    let mut i: usize = 0;
    while i < images.len()
        invariant
            are_images(images@),
            i <= images@.len(),
            out@.len() == i,
            are_images(out@),
            forall|k: int| 0 <= k < i ==> is_augmentation(images@[k]@, #[trigger] out@[k]@),
            done.len() == i,
            forall|k: int| 0 <= k < i ==> augmented_by(images@[k]@, #[trigger] done[k], out@[k]@),
            rng.drawn() == old(rng).drawn() + draws_for_all(views(images@), done, i as int),
            rng.seed() == old(rng).seed(),
        decreases images@.len() - i,
    {
        assert(views(images@)[i as int] == images@[i as int]@);
        let ghost drawn_before = rng.drawn();
        let moved = augment_image(images[i].as_slice(), rng);
        let ghost before = out@;
        let ghost s = choose|s: Shifts|
            augmented_by(images@[i as int]@, s, moved@) && rng.drawn() == drawn_before
                + draws_for(bounds_of(images@[i as int]@), s);
        out.push(moved);
        proof {
            lemma_draws_for_all_push(views(images@), done, s, i as int);
            let more = done.push(s);
            assert(draws_for_all(views(images@), more, i + 1) == draws_for_all(
                views(images@),
                more,
                i as int,
            ) + draws_for(bounds_of(views(images@)[i as int]), more[i as int]));
            assert(rng.drawn() =~= old(rng).drawn() + draws_for_all(views(images@), more, i + 1));
            done = more;
        }
        assert forall|k: int| 0 <= k < views(out@).len() implies (#[trigger] views(out@)[k]).len()
            == IMAGE_LEN by {
            if k < i {
                assert(views(before)[k] == out@[k]@);
            }
        }
        i += 1;
    }
    out
}

} // verus!
