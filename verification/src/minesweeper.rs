//! Annotating a minesweeper board: each empty square gets the number of
//! mines around it.
use vstd::prelude::*;
use vstd::string::*;
use crate::text::{chars_of, string_from_chars};

verus! {

/// The characters of all rows, one row after the other.
pub open spec fn joined(rows: Seq<&str>) -> Seq<char>
    decreases rows.len(),
{
    if rows.len() == 0 {
        Seq::empty()
    } else {
        joined(rows.drop_last()) + rows.last()@
    }
}

/// The width of a board: the length in bytes of its first row.
pub open spec fn board_width(rows: Seq<&str>) -> int {
    rows[0].spec_bytes().len() as int
}

/// The square in row `y` and column `x` of a board of width `c`, read from
/// the joined rows.
pub open spec fn square(m: Seq<char>, c: int, x: int, y: int) -> char {
    m[c * y + x]
}

/// The nine offsets (column, row) around a square, row by row.
pub open spec fn offsets() -> Seq<(i32, i32)> {
    seq![
        (-1i32, -1i32), (0i32, -1i32), (1i32, -1i32),
        (-1i32, 0i32), (0i32, 0i32), (1i32, 0i32),
        (-1i32, 1i32), (0i32, 1i32), (1i32, 1i32),
    ]
}

/// Whether the offset `d` from square (`x`, `y`) leads to another square of
/// an `r` by `c` board.
pub open spec fn offset_in_board(x: int, y: int, r: int, c: int, d: (i32, i32)) -> bool {
    &&& 0 <= y + d.1 < r
    &&& 0 <= x + d.0 < c
    &&& !(d.0 == 0 && d.1 == 0)
}

/// The offsets of the neighbours of square (`x`, `y`) on an `r` by `c`
/// board, in the order of `offsets`.
pub open spec fn neighbours(x: int, y: int, r: int, c: int) -> Seq<(i32, i32)> {
    offsets().filter(|d: (i32, i32)| offset_in_board(x, y, r, c, d))
}

/// How many of the squares at offsets `ds` from (`x`, `y`) hold a mine.
pub open spec fn mines_at(m: Seq<char>, c: int, x: int, y: int, ds: Seq<(i32, i32)>) -> nat
    decreases ds.len(),
{
    if ds.len() == 0 {
        0
    } else {
        let d = ds.last();
        mines_at(m, c, x, y, ds.drop_last()) + if square(m, c, x + d.0, y + d.1) == '*' {
            1nat
        } else {
            0nat
        }
    }
}

/// The number of mines around square (`x`, `y`).
pub open spec fn mine_count(m: Seq<char>, r: int, c: int, x: int, y: int) -> nat {
    mines_at(m, c, x, y, neighbours(x, y, r, c))
}

/// What an annotated board shows at (`x`, `y`): the mine, a blank where no
/// mine is near, or the count of mines near.
pub open spec fn annotation(m: Seq<char>, r: int, c: int, x: int, y: int) -> char {
    if square(m, c, x, y) == '*' {
        '*'
    } else if mine_count(m, r, c, x, y) == 0 {
        ' '
    } else {
        ('0' as int + mine_count(m, r, c, x, y)) as char
    }
}

/// Row `y` of the annotated board.
pub open spec fn annotated_row(m: Seq<char>, r: int, c: int, y: int) -> Seq<char> {
    Seq::new(c as nat, |x: int| annotation(m, r, c, x, y))
}

proof fn lemma_filter_prefix(s: Seq<(i32, i32)>, k: int, pred: spec_fn((i32, i32)) -> bool)
    requires
        0 <= k < s.len(),
    ensures
        s.subrange(0, k + 1).filter(pred) == if pred(s[k]) {
            s.subrange(0, k).filter(pred).push(s[k])
        } else {
            s.subrange(0, k).filter(pred)
        },
{
    reveal(Seq::filter);
    assert(s.subrange(0, k + 1).drop_last() =~= s.subrange(0, k));
}

proof fn lemma_filter_len_bound(s: Seq<(i32, i32)>, pred: spec_fn((i32, i32)) -> bool)
    ensures
        s.filter(pred).len() <= s.len(),
    decreases s.len(),
{
    reveal(Seq::filter);
    if s.len() > 0 {
        lemma_filter_len_bound(s.drop_last(), pred);
    }
}

proof fn lemma_mines_at_bound(m: Seq<char>, c: int, x: int, y: int, ds: Seq<(i32, i32)>)
    ensures
        mines_at(m, c, x, y, ds) <= ds.len(),
    decreases ds.len(),
{
    if ds.len() > 0 {
        lemma_mines_at_bound(m, c, x, y, ds.drop_last());
    }
}

/// An annotated board shows a mine exactly where the board has one; every
/// other square shows a blank or a digit from `1` to `8`.
pub proof fn lemma_annotation_shows_mines(m: Seq<char>, r: int, c: int, x: int, y: int)
    ensures
        (annotation(m, r, c, x, y) == '*') <==> (square(m, c, x, y) == '*'),
        square(m, c, x, y) != '*' ==> annotation(m, r, c, x, y) == ' '
            || ('1' <= annotation(m, r, c, x, y) && annotation(m, r, c, x, y) <= '8'),
{
    let pred = |d: (i32, i32)| offset_in_board(x, y, r, c, d);
    lemma_mines_at_bound(m, c, x, y, neighbours(x, y, r, c));
    assert(neighbours(x, y, r, c).len() <= 8) by {
        reveal_with_fuel(Seq::filter, 10);
        let s = offsets();
        assert(s.drop_last().drop_last().drop_last().drop_last().drop_last() =~= s.subrange(0, 4));
        lemma_filter_len_bound(s.subrange(0, 4), pred);
        assert(s.subrange(0, 5).drop_last() =~= s.subrange(0, 4));
        assert(s.subrange(0, 5).filter(pred) == s.subrange(0, 4).filter(pred));
    }
}

/// The offsets of the neighbours of square (`x`, `y`) on an `r` by `c` board.
fn generate_delta(x: usize, y: usize, r: usize, c: usize) -> (delta: Vec<(i32, i32)>)
    requires
        x < c <= i32::MAX,
        y < r <= i32::MAX,
    ensures
        delta@ == neighbours(x as int, y as int, r as int, c as int),
{
    let ghost pred = |d: (i32, i32)| offset_in_board(x as int, y as int, r as int, c as int, d);
    let mut delta: Vec<(i32, i32)> = Vec::new();
    assert(offsets().subrange(0, 0).filter(pred) =~= Seq::<(i32, i32)>::empty()) by {
        reveal(Seq::filter);
    }
    let mut i: i32 = -1;
    while i < 2
        invariant
            x < c <= i32::MAX,
            y < r <= i32::MAX,
            -1 <= i <= 2,
            pred == (|d: (i32, i32)| offset_in_board(x as int, y as int, r as int, c as int, d)),
            delta@ == offsets().subrange(0, 3 * (i + 1)).filter(pred),
        decreases 2 - i,
    {
        let ghost k = 3 * (i + 1);
        if y as i32 + i >= r as i32 || y as i32 + i < 0 {
            proof {
                lemma_filter_prefix(offsets(), k, pred);
                lemma_filter_prefix(offsets(), k + 1, pred);
                lemma_filter_prefix(offsets(), k + 2, pred);
            }
            i = i + 1;
            continue;
        }
        let mut j: i32 = -1;
        while j < 2
            invariant
                x < c <= i32::MAX,
                y < r <= i32::MAX,
                -1 <= i < 2,
                0 <= y + i < r,
                -1 <= j <= 2,
                k == 3 * (i + 1),
                pred == (|d: (i32, i32)| offset_in_board(x as int, y as int, r as int, c as int, d)),
                delta@ == offsets().subrange(0, k + j + 1).filter(pred),
            decreases 2 - j,
        {
            proof {
                lemma_filter_prefix(offsets(), k + j + 1, pred);
                assert(offsets()[k + j + 1] == (j, i));
            }
            if x as i32 + j >= c as i32 || x as i32 + j < 0 || (j == 0 && i == 0) {
                j = j + 1;
                continue;
            }
            delta.push((j, i));
            j = j + 1;
        }
        i = i + 1;
    }
    assert(offsets().subrange(0, 9) =~= offsets());
    delta
}

/// The characters of all rows, joined.
fn join_rows(minefield: &[&str]) -> (m: Vec<char>)
    ensures
        m@ == joined(minefield@),
{
    let mut m: Vec<char> = Vec::new();
    let mut k: usize = 0;
    while k < minefield.len()
        invariant
            k <= minefield@.len(),
            m@ == joined(minefield@.subrange(0, k as int)),
        decreases minefield@.len() - k,
    {
        let row = chars_of(minefield[k]);
        let ghost before = m@;
        let mut t: usize = 0;
        while t < row.len()
            invariant
                t <= row@.len(),
                m@ == before + row@.subrange(0, t as int),
            decreases row@.len() - t,
        {
            m.push(row[t]);
            t = t + 1;
            assert(m@ =~= before + row@.subrange(0, t as int));
        }
        assert(minefield@.subrange(0, k + 1).drop_last() =~= minefield@.subrange(0, k as int));
        assert(row@.subrange(0, row@.len() as int) =~= row@);
        k = k + 1;
    }
    assert(minefield@.subrange(0, minefield@.len() as int) =~= minefield@);
    m
}

/// The digit that shows a count of mines from one to nine.
fn digit_for(n: u8) -> (ch: char)
    requires
        1 <= n <= 9,
    ensures
        ch == ('0' as int + n) as char,
{
    match n {
        1 => '1',
        2 => '2',
        3 => '3',
        4 => '4',
        5 => '5',
        6 => '6',
        7 => '7',
        8 => '8',
        _ => '9',
    }
}

/// The annotated board: each row as `annotated_row` gives it, for a board of
/// as many rows as `minefield` and as wide as its first row. An empty board
/// gives no row; a board whose first row is empty gives one empty row.
pub fn annotate(minefield: &[&str]) -> (result: Vec<String>)
    requires
        minefield@.len() > 0 && board_width(minefield@) > 0 ==> {
            &&& minefield@.len() <= i32::MAX
            &&& board_width(minefield@) <= i32::MAX
            &&& minefield@.len() * board_width(minefield@) <= joined(minefield@).len()
        },
    ensures
        minefield@.len() == 0 ==> result@.len() == 0,
        minefield@.len() > 0 && board_width(minefield@) == 0 ==> {
            &&& result@.len() == 1
            &&& result@[0]@ == Seq::<char>::empty()
        },
        minefield@.len() > 0 && board_width(minefield@) > 0 ==> {
            &&& result@.len() == minefield@.len()
            &&& forall|y: int| 0 <= y < minefield@.len() ==> #[trigger] result@[y]@
                == annotated_row(joined(minefield@), minefield@.len() as int, board_width(minefield@), y)
        },
{
    let r = minefield.len();
    if r == 0 {
        return Vec::new();
    }
    let c = minefield[0].len();
    if c == 0 {
        let mut v: Vec<String> = Vec::new();
        v.push(String::new());
        return v;
    }
    let ghost rows = minefield@;
    let matrix = join_rows(minefield);
    assert(r * c <= usize::MAX) by {
        assert(matrix@.len() == matrix.len());
    }
    let mut result: Vec<String> = Vec::with_capacity(r);
    let mut i: usize = 0;
    while i < r
        invariant
            r == rows.len(),
            c == board_width(rows),
            0 < c <= i32::MAX,
            r <= i32::MAX,
            r * c <= matrix@.len(),
            r * c <= usize::MAX,
            matrix@ == joined(rows),
            i <= r,
            result@.len() == i,
            forall|y: int| 0 <= y < i ==> #[trigger] result@[y]@
                == annotated_row(matrix@, r as int, c as int, y),
        decreases r - i,
    {
        let mut result_row: Vec<char> = Vec::with_capacity(c);
        let mut j: usize = 0;
        while j < c
            invariant
                0 < c <= i32::MAX,
                r <= i32::MAX,
                i < r,
                r * c <= matrix@.len(),
                r * c <= usize::MAX,
                j <= c,
                result_row@ == annotated_row(matrix@, r as int, c as int, i as int).subrange(0, j as int),
            decreases c - j,
        {
            assert(c * i + j < r * c) by (nonlinear_arith)
                requires
                    i < r,
                    j < c,
            ;
            let value = matrix[c * i + j];
            if value == '*' {
                result_row.push(value);
            } else {
                let mut mine_counter: u8 = 0;
                let delta = generate_delta(j, i, r, c);
                proof {
                    lemma_filter_len_bound(
                        offsets(),
                        |d: (i32, i32)| offset_in_board(j as int, i as int, r as int, c as int, d),
                    );
                }
                let mut k: usize = 0;
                while k < delta.len()
                    invariant
                        0 < c <= i32::MAX,
                        r <= i32::MAX,
                        i < r,
                        j < c,
                        r * c <= matrix@.len(),
                        r * c <= usize::MAX,
                        delta@ == neighbours(j as int, i as int, r as int, c as int),
                        delta@.len() <= 9,
                        k <= delta@.len(),
                        mine_counter == mines_at(matrix@, c as int, j as int, i as int, delta@.subrange(0, k as int)),
                    decreases delta@.len() - k,
                {
                    let d = delta[k];
                    proof {
                        reveal(Seq::filter);
                        let pred = |d: (i32, i32)| offset_in_board(j as int, i as int, r as int, c as int, d);
                        offsets().lemma_filter_pred(pred, k as int);
                        lemma_mines_at_bound(matrix@, c as int, j as int, i as int, delta@.subrange(0, k as int));
                        assert(delta@.subrange(0, k + 1).drop_last() =~= delta@.subrange(0, k as int));
                    }
                    let x = (j as i32 + d.0) as usize;
                    let y = (i as i32 + d.1) as usize;
                    assert(y * c + x < r * c) by (nonlinear_arith)
                        requires
                            y < r,
                            x < c,
                    ;
                    let test_field = matrix[y * c + x];
                    assert(c * y + x == y * c + x) by (nonlinear_arith);
                    if test_field == '*' {
                        mine_counter = mine_counter + 1;
                    }
                    k = k + 1;
                }
                assert(delta@.subrange(0, delta@.len() as int) =~= delta@);
                let print_value = if mine_counter == 0 {
                    ' '
                } else {
                    proof {
                        lemma_mines_at_bound(matrix@, c as int, j as int, i as int, delta@);
                    }
                    digit_for(mine_counter)
                };
                result_row.push(print_value);
            }
            j = j + 1;
            assert(result_row@ =~= annotated_row(matrix@, r as int, c as int, i as int).subrange(0, j as int));
        }
        assert(result_row@ =~= annotated_row(matrix@, r as int, c as int, i as int));
        let s = string_from_chars(&result_row);
        result.push(s);
        i = i + 1;
    }
    result
}

} // verus!
