//! The ASCII-art adapter: glyphs for digits, a character grid as an input
//! vector, and a prediction grid rendered back to text.
//!
//! A grid is a byte string of lines separated by `\n` (line feed only).
//! Converting it to cells sets 1 where a `#` stands and 0 elsewhere; rows
//! past the frame's height and columns past its width are ignored.  Cell
//! element `k` of a `rows x cols` frame sits in row `k / cols`, column
//! `k % cols`.

use vstd::prelude::*;

use vstd::arithmetic::div_mod::lemma_div_is_ordered;
use vstd::arithmetic::div_mod::lemma_fundamental_div_mod_converse;
use vstd::pervasive::VecAdditionalExecFns;
use vstd::string::StringSliceAdditionalSpecFns;

verus! {

/// The byte standing for an inked cell.
pub const INK_BYTE: u8 = 35;

/// The byte standing for a blank cell.
pub const BLANK_BYTE: u8 = 32;

/// The line separator.
pub const NL_BYTE: u8 = 10;

/// Index of the first line feed at or after `i`, or the length when none
/// follows.
pub open spec fn first_nl(s: Seq<u8>, i: int) -> int
    decreases s.len() - i
        when 0 <= i <= s.len()
{
    if i >= s.len() {
        s.len() as int
    } else if s[i] == NL_BYTE {
        i
    } else {
        first_nl(s, i + 1)
    }
}

/// The first line feed at or after `i` lies between `i` and the length.
proof fn lemma_first_nl_bounds(s: Seq<u8>, i: int)
    requires
        0 <= i <= s.len(),
    ensures
        i <= first_nl(s, i) <= s.len(),
        first_nl(s, i) < s.len() ==> s[first_nl(s, i)] == NL_BYTE,
    decreases s.len() - i,
{
    if i < s.len() && s[i] != NL_BYTE {
        lemma_first_nl_bounds(s, i + 1);
    }
}

/// The lines of `s` from position `i` on, split at line feeds; a trailing
/// line feed closes the last line rather than opening an empty one.
pub open spec fn lines_from(s: Seq<u8>, i: int) -> Seq<Seq<u8>>
    decreases s.len() + 1 - i
        when 0 <= i <= s.len() + 1
        via lines_from_decreases
{
    if i >= s.len() {
        Seq::empty()
    } else {
        seq![s.subrange(i, first_nl(s, i))] + lines_from(s, first_nl(s, i) + 1)
    }
}

#[via_fn]
proof fn lines_from_decreases(s: Seq<u8>, i: int) {
    if 0 <= i < s.len() {
        lemma_first_nl_bounds(s, i);
    }
}

/// The lines of `s`, as `str::lines` yields them for line-feed input.
pub open spec fn split_lines(s: Seq<u8>) -> Seq<Seq<u8>> {
    lines_from(s, 0)
}

/// Whether the grid's line `y` carries ink at column `x`.
pub open spec fn cell_ink(lines: Seq<Seq<u8>>, y: int, x: int) -> bool {
    0 <= y < lines.len() && 0 <= x < lines[y].len() && lines[y][x] == INK_BYTE
}

/// The cell value the adapter owes at flat index `k` of a frame `cols`
/// wide.
pub open spec fn expected_cell(lines: Seq<Seq<u8>>, cols: int, k: int) -> u8 {
    if cell_ink(lines, k / cols, k % cols) {
        1u8
    } else {
        0u8
    }
}

/// The five-line glyph of each digit; any other number answers with the
/// fixed refusal text.
pub open spec fn digit_glyph(number: u8) -> Seq<char> {
    if number == 0 {
        "#####\n#   #\n#   #\n#   #\n#####\n"@
    } else if number == 1 {
        "  #  \n ##  \n  #  \n  #  \n#####\n"@
    } else if number == 2 {
        "#####\n    #\n#####\n#    \n#####\n"@
    } else if number == 3 {
        "#####\n    #\n#####\n    #\n#####\n"@
    } else if number == 4 {
        "#   #\n#   #\n#####\n    #\n    #\n"@
    } else if number == 5 {
        "#####\n#    \n#####\n    #\n#####\n"@
    } else if number == 6 {
        "#####\n#    \n#####\n#   #\n#####\n"@
    } else if number == 7 {
        "#####\n    #\n    #\n    #\n    #\n"@
    } else if number == 8 {
        "#####\n#   #\n#####\n#   #\n#####\n"@
    } else if number == 9 {
        "#####\n#   #\n#####\n    #\n#####\n"@
    } else {
        "Invalid number"@
    }
}

/// ASCII art for a digit, five lines of five cells each.
pub fn generate_number_ascii_art(number: u8) -> (r: String)
    ensures
        r@ == digit_glyph(number),
{
    match number {
        0 => "#####\n#   #\n#   #\n#   #\n#####\n".to_owned(),
        1 => "  #  \n ##  \n  #  \n  #  \n#####\n".to_owned(),
        2 => "#####\n    #\n#####\n#    \n#####\n".to_owned(),
        3 => "#####\n    #\n#####\n    #\n#####\n".to_owned(),
        4 => "#   #\n#   #\n#####\n    #\n    #\n".to_owned(),
        5 => "#####\n#    \n#####\n    #\n#####\n".to_owned(),
        6 => "#####\n#    \n#####\n#   #\n#####\n".to_owned(),
        7 => "#####\n    #\n    #\n    #\n    #\n".to_owned(),
        8 => "#####\n#   #\n#####\n#   #\n#####\n".to_owned(),
        9 => "#####\n#   #\n#####\n    #\n#####\n".to_owned(),
        _ => "Invalid number".to_owned(),
    }
}

/// Splits a byte string into its lines.
fn split_lines_exec(bytes: &[u8]) -> (lines: Vec<Vec<u8>>)
    ensures
        lines.deep_view() == split_lines(bytes@),
{
    let n = bytes.len();
    let mut lines: Vec<Vec<u8>> = Vec::new();
    let mut pos: usize = 0;
    while pos < n
        invariant
            pos <= n,
            n == bytes@.len(),
            lines.deep_view() + lines_from(bytes@, pos as int) == split_lines(bytes@),
        decreases n - pos,
    {
        let mut j = pos;
        while j < n && bytes[j] != NL_BYTE
            invariant
                pos <= j <= n,
                n == bytes@.len(),
                first_nl(bytes@, pos as int) == first_nl(bytes@, j as int),
            decreases n - j,
        {
            j += 1;
        }
        assert(first_nl(bytes@, pos as int) == j);
        let mut line: Vec<u8> = Vec::new();
        let mut k = pos;
        while k < j
            invariant
                pos <= k <= j <= n,
                n == bytes@.len(),
                line@ == bytes@.subrange(pos as int, k as int),
            decreases j - k,
        {
            let b = bytes[k];
            line.push(b);
            proof {
                assert(bytes@.subrange(pos as int, k + 1) =~= bytes@.subrange(
                    pos as int,
                    k as int,
                ).push(bytes@[k as int]));
            }
            k += 1;
        }
        let ghost old_deep = lines.deep_view();
        lines.push(line);
        proof {
            lemma_first_nl_bounds(bytes@, pos as int);
            assert(lines_from(bytes@, pos as int) =~~= seq![
                bytes@.subrange(pos as int, first_nl(bytes@, pos as int)),
            ] + lines_from(bytes@, first_nl(bytes@, pos as int) + 1));
            assert(lines.deep_view() =~~= old_deep.push(bytes@.subrange(
                pos as int,
                first_nl(bytes@, pos as int),
            )));
            assert(old_deep.push(bytes@.subrange(pos as int, first_nl(bytes@, pos as int)))
                + lines_from(bytes@, first_nl(bytes@, pos as int) + 1) =~~= old_deep + lines_from(
                bytes@,
                pos as int,
            ));
        }
        if j < n {
            pos = j + 1;
        } else {
            pos = n;
            proof {
                assert(lines_from(bytes@, j + 1) =~~= lines_from(bytes@, n as int));
            }
        }
    }
    proof {
        assert(lines.deep_view() + lines_from(bytes@, pos as int) =~~= lines.deep_view());
    }
    lines
}

/// Converts a character grid into the flattened `rows x cols` cell vector:
/// 1 where the grid carries ink, 0 elsewhere, with anything outside the
/// frame ignored.
pub fn ascii_to_cells(art: &str, rows: usize, cols: usize) -> (r: Vec<u8>)
    requires
        rows * cols <= usize::MAX,
    ensures
        r@.len() == rows * cols,
        forall|k: int|
            0 <= k < r@.len() ==> r@[k] == expected_cell(
                split_lines(art.spec_bytes()),
                cols as int,
                k,
            ),
{
    let bytes = art.as_bytes();
    let lines = split_lines_exec(bytes);
    let ghost glines = split_lines(art.spec_bytes());
    let total = rows * cols;
    let mut r: Vec<u8> = vec![0u8; total];
    if cols == 0 {
        return r;
    }
    let mut y: usize = 0;
    while y < rows && y < lines.len()
        invariant
            cols > 0,
            total == rows * cols,
            r@.len() == total,
            glines == lines.deep_view(),
            y <= rows,
            forall|k: int|
                0 <= k < total ==> r@[k] == (if k < y * cols {
                    expected_cell(glines, cols as int, k)
                } else {
                    0u8
                }),
        decreases rows - y,
    {
        let line = &lines[y];
        proof {
            assert(line@ =~= glines[y as int]);
            assert((y + 1) * cols == y * cols + cols) by (nonlinear_arith);
            assert((y + 1) * cols <= rows * cols) by (nonlinear_arith)
                requires
                    0 <= y < rows as int,
                    cols as int > 0,
            ;
        }
        let mut x: usize = 0;
        while x < cols && x < line.len()
            invariant
                cols > 0,
                total == rows * cols,
                r@.len() == total,
                y < rows,
                (y as int) < glines.len(),
                line@ == glines[y as int],
                x <= cols,
                (y + 1) * cols == y * cols + cols,
                (y + 1) * cols <= total,
                forall|k: int|
                    0 <= k < total ==> r@[k] == (if k < y * cols + x {
                        expected_cell(glines, cols as int, k)
                    } else {
                        0u8
                    }),
            decreases cols - x,
        {
            proof {
                lemma_fundamental_div_mod_converse(
                    y * cols + x,
                    cols as int,
                    y as int,
                    x as int,
                );
            }
            let idx = y * cols + x;
            if line[x] == INK_BYTE {
                r.set(idx, 1u8);
            } else {
                r.set(idx, 0u8);
            }
            x += 1;
        }
        proof {
            // Columns past the line's end, if any, owe 0 and still hold 0.
            assert forall|k: int|
                y * cols + x <= k < (y + 1) * cols implies expected_cell(
                glines,
                cols as int,
                k,
            ) == 0u8 by {
                lemma_fundamental_div_mod_converse(k, cols as int, y as int, k - y * cols);
            }
        }
        y += 1;
    }
    proof {
        assert forall|k: int| 0 <= k < total implies r@[k] == expected_cell(
            glines,
            cols as int,
            k,
        ) by {
            if k >= y * cols {
                // Only rows past the art's last line are left; they owe 0.
                lemma_div_is_ordered(y * cols, k, cols as int);
                lemma_fundamental_div_mod_converse(y * cols, cols as int, y as int, 0);
                assert((y as int) >= glines.len());
                assert(!cell_ink(glines, k / (cols as int), k % (cols as int)));
            }
        }
    }
    r
}

/// Renders a flattened `rows x cols` cell vector as a grid: an ink byte
/// where the cell is set, a blank otherwise, each row closed by a line
/// feed.  Element `k` of the text sits in row `k / (cols + 1)` at column
/// `k % (cols + 1)`, the last column of each row being the line feed.
pub open spec fn spec_render_grid(cells: Seq<u8>, rows: int, cols: int) -> Seq<u8> {
    Seq::new(
        (rows * (cols + 1)) as nat,
        |k: int|
            {
                let y = k / (cols + 1);
                let x = k % (cols + 1);
                if x == cols {
                    NL_BYTE
                } else if cells[y * cols + x] != 0 {
                    INK_BYTE
                } else {
                    BLANK_BYTE
                }
            },
    )
}

/// Builds the grid text of a cell vector.
pub fn render_ascii_grid(cells: &Vec<u8>, rows: usize, cols: usize) -> (r: Vec<u8>)
    requires
        cells@.len() == rows * cols,
        rows * (cols + 1) <= usize::MAX,
    ensures
        r@ == spec_render_grid(cells@, rows as int, cols as int),
{
    if rows == 0 {
        let r: Vec<u8> = Vec::new();
        proof {
            assert(r@ =~= spec_render_grid(cells@, rows as int, cols as int));
        }
        return r;
    }
    proof {
        assert((cols + 1) <= rows * ((cols as int) + 1)) by (nonlinear_arith)
            requires
                rows as int >= 1,
        ;
    }
    let width = cols + 1;
    let mut r: Vec<u8> = Vec::new();
    let mut y: usize = 0;
    while y < rows
        invariant
            width == cols + 1,
            cells@.len() == rows * cols,
            rows * width <= usize::MAX,
            y <= rows,
            r@.len() == y * width,
            forall|k: int|
                0 <= k < r@.len() ==> r@[k] == spec_render_grid(
                    cells@,
                    rows as int,
                    cols as int,
                )[k],
        decreases rows - y,
    {
        proof {
            assert((y + 1) * width <= rows * width) by (nonlinear_arith)
                requires
                    0 <= y < rows as int,
                    width as int > 0,
            ;
            assert((y + 1) * width == y * width + width) by (nonlinear_arith);
        }
        let mut x: usize = 0;
        while x < width
            invariant
                width == cols + 1,
                cells@.len() == rows * cols,
                rows * width <= usize::MAX,
                y < rows,
                (y + 1) * width <= rows * width,
                (y + 1) * width == y * width + width,
                x <= width,
                r@.len() == y * width + x,
                forall|k: int|
                    0 <= k < r@.len() ==> r@[k] == spec_render_grid(
                        cells@,
                        rows as int,
                        cols as int,
                    )[k],
            decreases width - x,
        {
            proof {
                lemma_fundamental_div_mod_converse(
                    y * width + x,
                    width as int,
                    y as int,
                    x as int,
                );
                if x < cols {
                    assert(y * cols + x < rows * cols) by (nonlinear_arith)
                        requires
                            0 <= y < rows as int,
                            0 <= x < cols as int,
                    ;
                    assert(rows * cols <= rows * width) by (nonlinear_arith)
                        requires
                            rows as int >= 0,
                            width == cols + 1,
                    ;
                }
            }
            if x == cols {
                r.push(NL_BYTE);
            } else {
                let idx = y * cols + x;
                if cells[idx] != 0 {
                    r.push(INK_BYTE);
                } else {
                    r.push(BLANK_BYTE);
                }
            }
            x += 1;
        }
        y += 1;
    }
    proof {
        assert(r@ =~= spec_render_grid(cells@, rows as int, cols as int));
    }
    r
}

} // verus!
