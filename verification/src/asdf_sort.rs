//! Kim Asendorf's 2010 "ASDF" pixel sort.
//!
//! Each loop first sorts the columns of the image, then its rows. Along a
//! column or row the sort looks for runs: a run starts at the first pixel that
//! passes the mode's start test and extends over the following pixels that pass
//! its continue test. The pixels of a run, except the run's last one (a run's
//! end index is exclusive), are sorted by Processing's signed colour integer
//! (the ARGB word read as an `i32`), stably.

use vstd::prelude::*;
use vstd::multiset::Multiset;
use crate::pixel::{Rgba, color_int, max_channel, processing_color_int, brightness, pixels_of, bytes_of, read_pixels, write_pixels, lemma_pixels_of_bytes};
use crate::stable_sort::{SortKey, stable_sorted, stable_sort_by_key, lemma_stable_sorted, is_stable_sort_of};

verus! {

/// The test that picks where runs start and end.
#[derive(Clone, Copy, Debug, PartialEq, Eq, Structural)]
pub enum AsdfSortMode {
    /// Runs hold pixels whose colour integer is above `white_value`.
    White,
    /// Runs hold pixels whose colour integer is below `black_value`.
    Black,
    /// Runs hold pixels whose brightness is above `bright_value`.
    Bright,
    /// Runs hold pixels whose brightness is below `dark_value`.
    Dark,
}

impl Default for AsdfSortMode {
    fn default() -> (r: Self)
        ensures
            r == AsdfSortMode::White,
    {
        AsdfSortMode::White
    }
}

/// Parameters for Kim Asendorf's 2010 ASDF pixel sort.
#[derive(Clone, Copy, Debug, PartialEq, Eq, Structural)]
pub struct AsdfSortParams {
    pub mode: AsdfSortMode,
    pub loops: u32,
    pub white_value: i32,
    pub black_value: i32,
    pub bright_value: u8,
    pub dark_value: u8,
}

impl Default for AsdfSortParams {
    fn default() -> (r: Self)
        ensures
            r == (AsdfSortParams {
                mode: AsdfSortMode::White,
                loops: 1,
                white_value: -12_345_678i32,
                black_value: -3_456_789i32,
                bright_value: 127,
                dark_value: 223,
            }),
    {
        AsdfSortParams {
            mode: AsdfSortMode::White,
            loops: 1,
            white_value: -12_345_678,
            black_value: -3_456_789,
            bright_value: 127,
            dark_value: 223,
        }
    }
}

/// A run has not started yet at a pixel that this holds of.
pub open spec fn skips(p: AsdfSortParams, c: Rgba) -> bool {
    match p.mode {
        AsdfSortMode::White => color_int(c) < p.white_value,
        AsdfSortMode::Black => color_int(c) > p.black_value,
        AsdfSortMode::Bright => max_channel(c) < p.bright_value,
        AsdfSortMode::Dark => max_channel(c) > p.dark_value,
    }
}

/// A run goes on over a pixel that this holds of.
pub open spec fn continues(p: AsdfSortParams, c: Rgba) -> bool {
    match p.mode {
        AsdfSortMode::White => color_int(c) > p.white_value,
        AsdfSortMode::Black => color_int(c) < p.black_value,
        AsdfSortMode::Bright => max_channel(c) > p.bright_value,
        AsdfSortMode::Dark => max_channel(c) < p.dark_value,
    }
}

/// The first index at or after `x` where a run can start, or `line.len()`.
pub open spec fn first_start(p: AsdfSortParams, line: Seq<Rgba>, x: int) -> int
    decreases line.len() - x,
{
    if x < 0 || x >= line.len() {
        line.len() as int
    } else if skips(p, line[x]) {
        first_start(p, line, x + 1)
    } else {
        x
    }
}

/// The first index at or after `x` where a run stops, or `line.len()`.
pub open spec fn first_stop(p: AsdfSortParams, line: Seq<Rgba>, x: int) -> int
    decreases line.len() - x,
{
    if x < 0 || x >= line.len() {
        line.len() as int
    } else if continues(p, line[x]) {
        first_stop(p, line, x + 1)
    } else {
        x
    }
}

/// The end index of the run that starts at `s`: the last pixel that continues
/// it, or the last pixel of the line.
pub open spec fn run_end(p: AsdfSortParams, line: Seq<Rgba>, s: int) -> int {
    let n = line.len() as int;
    if s + 1 >= n {
        n - 1
    } else {
        let e = first_stop(p, line, s + 1);
        if e >= n {
            n - 1
        } else {
            e - 1
        }
    }
}

/// `line` with the pixels at `s..e` stably sorted by colour integer.
pub open spec fn sort_span(line: Seq<Rgba>, s: int, e: int) -> Seq<Rgba> {
    if e <= s {
        line
    } else {
        line.take(s) + stable_sorted(SortKey::ColorInt, line.subrange(s, e)) + line.skip(e)
    }
}

pub proof fn lemma_first_start_bounds(p: AsdfSortParams, line: Seq<Rgba>, x: int)
    requires
        0 <= x,
    ensures
        x <= first_start(p, line, x) <= line.len() || (x > line.len() && first_start(p, line, x) == line.len()),
        first_start(p, line, x) < line.len() ==> !skips(p, line[first_start(p, line, x)]),
        forall|i: int| x <= i < first_start(p, line, x) ==> skips(p, #[trigger] line[i]),
    decreases line.len() - x,
{
    if x < line.len() && skips(p, line[x]) {
        lemma_first_start_bounds(p, line, x + 1);
    }
}

proof fn lemma_first_stop_bounds(p: AsdfSortParams, line: Seq<Rgba>, x: int)
    requires
        0 <= x,
    ensures
        x <= first_stop(p, line, x) <= line.len() || (x > line.len() && first_stop(p, line, x) == line.len()),
        first_stop(p, line, x) < line.len() ==> !continues(p, line[first_stop(p, line, x)]),
        forall|i: int| x <= i < first_stop(p, line, x) ==> continues(p, #[trigger] line[i]),
    decreases line.len() - x,
{
    if x < line.len() && continues(p, line[x]) {
        lemma_first_stop_bounds(p, line, x + 1);
    }
}

pub proof fn lemma_run_end_bounds(p: AsdfSortParams, line: Seq<Rgba>, s: int)
    requires
        0 <= s < line.len(),
    ensures
        s <= run_end(p, line, s) < line.len(),
{
    if s + 1 < line.len() {
        lemma_first_stop_bounds(p, line, s + 1);
    }
}

pub proof fn lemma_sort_span_len(line: Seq<Rgba>, s: int, e: int)
    requires
        0 <= s <= e <= line.len(),
    ensures
        sort_span(line, s, e).len() == line.len(),
{
    if s < e {
        lemma_stable_sorted(SortKey::ColorInt, line.subrange(s, e));
    }
}

/// The sort of one line (a column or a row) from position `x`, with the last
/// run having ended at `x_end`.
pub open spec fn sort_runs_from(p: AsdfSortParams, line: Seq<Rgba>, x: int, x_end: int) -> Seq<Rgba>
    decreases line.len() - x,
{
    if !(x_end < line.len() - 1) || x < 0 {
        line
    } else {
        let s = first_start(p, line, x);
        if s >= line.len() {
            line
        } else {
            let e = run_end(p, line, s);
            proof {
                lemma_first_start_bounds(p, line, x);
                lemma_run_end_bounds(p, line, s);
                lemma_sort_span_len(line, s, e);
            }
            sort_runs_from(p, sort_span(line, s, e), e + 1, e)
        }
    }
}

/// The ASDF sort of one line of pixels.
pub open spec fn sort_line(p: AsdfSortParams, line: Seq<Rgba>) -> Seq<Rgba> {
    sort_runs_from(p, line, 0, 0)
}

fn skip_until_start(c: Rgba, p: AsdfSortParams) -> (r: bool)
    ensures
        r == skips(p, c),
{
    match p.mode {
        AsdfSortMode::White => processing_color_int(c) < p.white_value,
        AsdfSortMode::Black => processing_color_int(c) > p.black_value,
        AsdfSortMode::Bright => brightness(c) < p.bright_value,
        AsdfSortMode::Dark => brightness(c) > p.dark_value,
    }
}

fn continue_until_end(c: Rgba, p: AsdfSortParams) -> (r: bool)
    ensures
        r == continues(p, c),
{
    match p.mode {
        AsdfSortMode::White => processing_color_int(c) > p.white_value,
        AsdfSortMode::Black => processing_color_int(c) < p.black_value,
        AsdfSortMode::Bright => brightness(c) > p.bright_value,
        AsdfSortMode::Dark => brightness(c) < p.dark_value,
    }
}

fn first_x(line: &Vec<Rgba>, x: usize, p: AsdfSortParams) -> (r: Option<usize>)
    ensures
        match r {
            Some(s) => s == first_start(p, line@, x as int) && s < line@.len(),
            None => first_start(p, line@, x as int) >= line@.len(),
        },
{
    let n = line.len();
    let mut i = x;
    while i < n && skip_until_start(line[i], p)
        invariant
            x <= i,
            n == line@.len(),
            first_start(p, line@, i as int) == first_start(p, line@, x as int),
        decreases n - i,
    {
        i += 1;
    }
    if i < n {
        Some(i)
    } else {
        None
    }
}

fn next_x(line: &Vec<Rgba>, x: usize, p: AsdfSortParams) -> (r: usize)
    requires
        x < line@.len(),
    ensures
        r == run_end(p, line@, x as int),
{
    let n = line.len();
    let mut next = x + 1;
    if next >= n {
        return n - 1;
    }
    while next < n && continue_until_end(line[next], p)
        invariant
            x + 1 <= next,
            n == line@.len(),
            first_stop(p, line@, next as int) == first_stop(p, line@, x + 1),
        decreases n - next,
    {
        next += 1;
    }
    if next >= n {
        n - 1
    } else {
        next - 1
    }
}

fn sort_line_span(line: &mut Vec<Rgba>, start: usize, end_exclusive: usize)
    requires
        start <= end_exclusive <= old(line)@.len(),
    ensures
        final(line)@ == sort_span(old(line)@, start as int, end_exclusive as int),
{
    if end_exclusive <= start {
        return;
    }
    let mut colors: Vec<Rgba> = Vec::with_capacity(end_exclusive - start);
    let mut i = start;
    while i < end_exclusive
        invariant
            start <= i <= end_exclusive,
            end_exclusive <= line@.len(),
            colors@ == line@.subrange(start as int, i as int),
        decreases end_exclusive - i,
    {
        colors.push(line[i]);
        i += 1;
        assert(colors@ =~= line@.subrange(start as int, i as int));
    }
    let sorted = stable_sort_by_key(SortKey::ColorInt, &colors);
    let ghost before = line@;
    let mut j: usize = 0;
    while j < sorted.len()
        invariant
            j <= sorted@.len(),
            sorted@.len() == end_exclusive - start,
            start <= end_exclusive <= before.len(),
            line@.len() == before.len(),
            forall|k: int| 0 <= k < start ==> #[trigger] line@[k] == before[k],
            forall|k: int| end_exclusive <= k < before.len() ==> #[trigger] line@[k] == before[k],
            forall|k: int| 0 <= k < j ==> #[trigger] line@[start + k] == sorted@[k],
        decreases sorted@.len() - j,
    {
        line.set(start + j, sorted[j]);
        j += 1;
    }
    assert(line@ =~= before.take(start as int) + sorted@ + before.skip(end_exclusive as int)) by {
        assert forall|k: int| 0 <= k < line@.len() implies #[trigger] line@[k] == (before.take(
            start as int,
        ) + sorted@ + before.skip(end_exclusive as int))[k] by {
            if start <= k < end_exclusive {
                assert(line@[start + (k - start)] == sorted@[k - start]);
            }
        }
    }
}

/// Sorts the runs of one line in place.
fn sort_runs(line: &mut Vec<Rgba>, p: AsdfSortParams)
    ensures
        final(line)@ == sort_line(p, old(line)@),
{
    let n = line.len();
    let ghost goal = sort_line(p, line@);
    let mut x: usize = 0;
    let mut x_end: usize = 0;
    let mut done = false;
    while !done && n >= 1 && x_end < n - 1
        invariant
            line@.len() == n,
            x <= n,
            x_end < n || n == 0,
            done ==> goal == line@,
            !done ==> goal == sort_runs_from(p, line@, x as int, x_end as int),
        decreases n - x + (if done { 0int } else { 1int }),
    {
        match first_x(line, x, p) {
            None => {
                done = true;
            },
            Some(start) => {
                proof {
                    lemma_first_start_bounds(p, line@, x as int);
                }
                let end = next_x(line, start, p);
                proof {
                    lemma_run_end_bounds(p, line@, start as int);
                    lemma_sort_span_len(line@, start as int, end as int);
                }
                sort_line_span(line, start, end);
                x = end + 1;
                x_end = end;
            },
        }
    }
}


pub proof fn lemma_sort_runs_len(p: AsdfSortParams, line: Seq<Rgba>, x: int, x_end: int)
    ensures
        sort_runs_from(p, line, x, x_end).len() == line.len(),
    decreases line.len() - x,
{
    if !(x_end < line.len() - 1) || x < 0 {
    } else {
        let s = first_start(p, line, x);
        if s < line.len() {
            let e = run_end(p, line, s);
            lemma_first_start_bounds(p, line, x);
            lemma_run_end_bounds(p, line, s);
            lemma_sort_span_len(line, s, e);
            lemma_sort_runs_len(p, sort_span(line, s, e), e + 1, e);
        }
    }
}

/// The pixels of column `x` of a grid of rows, top to bottom.
pub open spec fn column(g: Seq<Seq<Rgba>>, x: int) -> Seq<Rgba> {
    Seq::new(g.len(), |y: int| g[y][x])
}

/// The grid with column `x` replaced by `col`.
pub open spec fn set_column(g: Seq<Seq<Rgba>>, x: int, col: Seq<Rgba>) -> Seq<Seq<Rgba>> {
    Seq::new(g.len(), |y: int| g[y].update(x, col[y]))
}

/// The grid after its first `k` columns were sorted, left to right.
pub open spec fn columns_sorted(p: AsdfSortParams, g: Seq<Seq<Rgba>>, k: int) -> Seq<Seq<Rgba>>
    decreases k,
{
    if k <= 0 {
        g
    } else {
        let prev = columns_sorted(p, g, k - 1);
        set_column(prev, k - 1, sort_line(p, column(prev, k - 1)))
    }
}

/// The grid after its first `k` rows were sorted, top to bottom.
pub open spec fn rows_sorted(p: AsdfSortParams, g: Seq<Seq<Rgba>>, k: int) -> Seq<Seq<Rgba>>
    decreases k,
{
    if k <= 0 {
        g
    } else {
        let prev = rows_sorted(p, g, k - 1);
        prev.update(k - 1, sort_line(p, prev[k - 1]))
    }
}

/// One loop of the sort: every column but the last, then the first `row_limit` rows.
pub open spec fn asdf_round(p: AsdfSortParams, g: Seq<Seq<Rgba>>, w: int, row_limit: int) -> Seq<Seq<Rgba>> {
    rows_sorted(p, columns_sorted(p, g, w - 1), row_limit)
}

/// `n` loops of the sort.
pub open spec fn asdf_rounds(p: AsdfSortParams, g: Seq<Seq<Rgba>>, w: int, row_limit: int, n: nat) -> Seq<Seq<Rgba>>
    decreases n,
{
    if n == 0 {
        g
    } else {
        asdf_round(p, asdf_rounds(p, g, w, row_limit, (n - 1) as nat), w, row_limit)
    }
}

/// Every row of the grid holds `w` pixels.
pub open spec fn rows_of_width(g: Seq<Seq<Rgba>>, w: int) -> bool {
    forall|y: int| 0 <= y < g.len() ==> #[trigger] g[y].len() == w
}

/// The views of a vector of rows.
pub open spec fn rows_view(g: Seq<Vec<Rgba>>) -> Seq<Seq<Rgba>> {
    Seq::new(g.len(), |y: int| g[y]@)
}

fn sort_columns(grid: &mut Vec<Vec<Rgba>>, w: usize, p: AsdfSortParams)
    requires
        w >= 1,
        rows_of_width(rows_view(old(grid)@), w as int),
    ensures
        rows_view(final(grid)@) == columns_sorted(p, rows_view(old(grid)@), w - 1),
        rows_of_width(rows_view(final(grid)@), w as int),
        final(grid)@.len() == old(grid)@.len(),
{
    let ghost g0 = rows_view(grid@);
    let n = grid.len();
    let mut x: usize = 0;
    while x < w - 1
        invariant
            x <= w - 1,
            n == grid@.len(),
            rows_of_width(rows_view(grid@), w as int),
            rows_view(grid@) == columns_sorted(p, g0, x as int),
        decreases w - 1 - x,
    {
        let ghost prev = rows_view(grid@);
        let mut col: Vec<Rgba> = Vec::with_capacity(n);
        let mut y: usize = 0;
        while y < n
            invariant
                y <= n,
                x < w,
                n == grid@.len(),
                prev == rows_view(grid@),
                rows_of_width(prev, w as int),
                col@ == column(prev, x as int).take(y as int),
            decreases n - y,
        {
            assert(prev[y as int].len() == w);
            col.push(grid[y][x]);
            y += 1;
            assert(col@ =~= column(prev, x as int).take(y as int));
        }
        assert(col@ =~= column(prev, x as int));
        sort_runs(&mut col, p);
        proof {
            lemma_sort_runs_len(p, column(prev, x as int), 0, 0);
        }
        let mut y: usize = 0;
        while y < n
            invariant
                y <= n,
                x < w,
                n == grid@.len(),
                col@.len() == n,
                prev.len() == n,
                rows_of_width(prev, w as int),
                rows_of_width(rows_view(grid@), w as int),
                forall|i: int| 0 <= i < y ==> #[trigger] grid@[i]@ == prev[i].update(x as int, col@[i]),
                forall|i: int| y <= i < n ==> #[trigger] grid@[i]@ == prev[i],
            decreases n - y,
        {
            let ghost before = grid@;
            let c = col[y];
            grid[y].set(x, c);
            proof {
                assert forall|i: int| 0 <= i < n && i != y implies #[trigger] grid@[i] == before[i] by {}
            }
            y += 1;
        }
        assert(rows_view(grid@) =~= set_column(prev, x as int, col@));
        x += 1;
    }
}

fn sort_rows(grid: &mut Vec<Vec<Rgba>>, w: usize, row_limit: usize, p: AsdfSortParams)
    requires
        row_limit <= old(grid)@.len(),
        rows_of_width(rows_view(old(grid)@), w as int),
    ensures
        rows_view(final(grid)@) == rows_sorted(p, rows_view(old(grid)@), row_limit as int),
        final(grid)@.len() == old(grid)@.len(),
        rows_of_width(rows_view(final(grid)@), w as int),
{
    let ghost g0 = rows_view(grid@);
    let ghost start = grid@;
    let mut y: usize = 0;
    while y < row_limit
        invariant
            y <= row_limit <= grid@.len(),
            grid@.len() == start.len(),
            forall|i: int| 0 <= i < start.len() ==> #[trigger] grid@[i]@.len() == start[i]@.len(),
            rows_view(grid@) == rows_sorted(p, g0, y as int),
        decreases row_limit - y,
    {
        let ghost prev = rows_view(grid@);
        proof {
            lemma_sort_runs_len(p, prev[y as int], 0, 0);
        }
        sort_runs(&mut grid[y], p);
        assert(rows_view(grid@) =~= prev.update(y as int, sort_line(p, prev[y as int])));
        y += 1;
    }
    assert forall|i: int| 0 <= i < grid@.len() implies #[trigger] rows_view(grid@)[i].len() == w by {
        assert(grid@[i]@.len() == start[i]@.len());
        assert(rows_view(start)[i].len() == w);
    }
}


/// The first `rows` rows of `w` pixels each of a row-major run of pixels.
pub open spec fn grid_of(px: Seq<Rgba>, w: int, rows: int) -> Seq<Seq<Rgba>> {
    Seq::new(rows as nat, |y: int| px.subrange(y * w, y * w + w))
}

/// The rows of a grid laid end to end.
pub open spec fn flatten_rows(g: Seq<Seq<Rgba>>) -> Seq<Rgba>
    decreases g.len(),
{
    if g.len() == 0 {
        Seq::empty()
    } else {
        flatten_rows(g.drop_last()) + g.last()
    }
}

/// How many rows of the image the sort works on: the declared height, or fewer
/// when the buffer ends before the image does.
pub open spec fn rows_held(len: int, w: int, h: int) -> int {
    if len / 4 / w < h {
        len / 4 / w
    } else {
        h
    }
}

/// How many rows the row pass sorts: all rows but the declared last one, as far
/// as the buffer holds them.
pub open spec fn row_pass_len(len: int, w: int, h: int) -> int {
    if h - 1 < rows_held(len, w, h) {
        h - 1
    } else {
        rows_held(len, w, h)
    }
}

/// The number of loops the sort runs: `loops`, and at least one.
pub open spec fn loop_count(p: AsdfSortParams) -> nat {
    if p.loops == 0 {
        1
    } else {
        p.loops as nat
    }
}

/// The parameters of one loop of the sort: `p` with `loops` set to one.
pub open spec fn one_loop(p: AsdfSortParams) -> AsdfSortParams {
    AsdfSortParams {
        mode: p.mode,
        loops: 1,
        white_value: p.white_value,
        black_value: p.black_value,
        bright_value: p.bright_value,
        dark_value: p.dark_value,
    }
}

/// The buffer after the ASDF sort of a `w` by `h` image.
pub open spec fn asdf_result(buf: Seq<u8>, w: int, h: int, p: AsdfSortParams) -> Seq<u8> {
    if w <= 0 || h <= 0 {
        buf
    } else {
        let rows = rows_held(buf.len() as int, w, h);
        let g = grid_of(pixels_of(buf, w * rows), w, rows);
        let out = asdf_rounds(one_loop(p), g, w, row_pass_len(buf.len() as int, w, h), loop_count(p));
        bytes_of(flatten_rows(out)) + buf.skip(4 * w * rows)
    }
}

fn to_grid(px: &Vec<Rgba>, w: usize, rows: usize) -> (g: Vec<Vec<Rgba>>)
    requires
        px@.len() == w * rows,
    ensures
        rows_view(g@) == grid_of(px@, w as int, rows as int),
        g@.len() == rows,
        rows_of_width(rows_view(g@), w as int),
{
    let mut g: Vec<Vec<Rgba>> = Vec::with_capacity(rows);
    let n = px.len();
    let mut y: usize = 0;
    while y < rows
        invariant
            y <= rows,
            n == px@.len(),
            px@.len() == w * rows,
            rows_view(g@) == grid_of(px@, w as int, rows as int).take(y as int),
            g@.len() == y,
        decreases rows - y,
    {
        assert(y * w + w <= w * rows) by (nonlinear_arith)
            requires
                y < rows,
        ;
        let base = y * w;
        let mut row: Vec<Rgba> = Vec::with_capacity(w);
        let mut x: usize = 0;
        while x < w
            invariant
                x <= w,
                base == y * w,
                n == px@.len(),
                base + w <= px@.len(),
                row@ == px@.subrange(base as int, base + x),
            decreases w - x,
        {
            row.push(px[base + x]);
            x += 1;
            assert(row@ =~= px@.subrange(base as int, base + x));
        }
        g.push(row);
        y += 1;
        assert(rows_view(g@) =~= grid_of(px@, w as int, rows as int).take(y as int));
    }
    assert(grid_of(px@, w as int, rows as int).take(rows as int) =~= grid_of(px@, w as int, rows as int));
    assert forall|y: int| 0 <= y < rows implies #[trigger] rows_view(g@)[y].len() == w by {
        assert(y * w + w <= w * rows) by (nonlinear_arith)
            requires
                0 <= y < rows,
        ;
        assert(0 <= y * w) by (nonlinear_arith)
            requires
                0 <= y,
        ;
    }
    g
}

fn from_grid(g: &Vec<Vec<Rgba>>, w: usize) -> (px: Vec<Rgba>)
    requires
        rows_of_width(rows_view(g@), w as int),
        g@.len() * w <= usize::MAX,
    ensures
        px@ == flatten_rows(rows_view(g@)),
        px@.len() == g@.len() * w,
{
    let mut px: Vec<Rgba> = Vec::new();
    let mut y: usize = 0;
    while y < g.len()
        invariant
            y <= g@.len(),
            g@.len() * w <= usize::MAX,
            rows_of_width(rows_view(g@), w as int),
            px@ == flatten_rows(rows_view(g@).take(y as int)),
            px@.len() == y * w,
        decreases g@.len() - y,
    {
        assert(rows_view(g@)[y as int].len() == w);
        let mut x: usize = 0;
        let ghost px0 = px@;
        assert((y + 1) * w <= g@.len() * w) by (nonlinear_arith)
            requires
                y < g@.len(),
        ;
        while x < w
            invariant
                x <= w,
                g@[y as int]@.len() == w,
                y < g@.len(),
                px@ == px0 + g@[y as int]@.take(x as int),
            decreases w - x,
        {
            px.push(g[y][x]);
            x += 1;
            assert(px@ =~= px0 + g@[y as int]@.take(x as int));
        }
        assert(g@[y as int]@.take(w as int) =~= g@[y as int]@);
        let ghost tk = rows_view(g@).take(y + 1);
        assert(tk.drop_last() =~= rows_view(g@).take(y as int));
        y += 1;
        assert(px@.len() == y * w) by (nonlinear_arith)
            requires
                px@.len() == (y - 1) * w + w,
        ;
    }
    assert(rows_view(g@).take(g@.len() as int) =~= rows_view(g@));
    px
}

/// Kim Asendorf's 2010 ASDF pixel sort of a `width` by `height` RGBA8 image:
/// each loop sorts the runs of every column but the last, then of every row but
/// the last. A buffer shorter than the image is sorted as far as it holds whole
/// rows; bytes past the sorted rows are kept. An image with no width or no
/// height is left as it is.
pub fn asdf_sort(rgba: &mut [u8], width: u32, height: u32, params: AsdfSortParams)
    ensures
        final(rgba)@ == asdf_result(old(rgba)@, width as int, height as int, params),
{
    let w = width as usize;
    let h = height as usize;
    if w == 0 || h == 0 {
        return;
    }
    let len = rgba.len();
    let held = len / 4 / w;
    let rows = if held < h { held } else { h };
    assert(w * rows <= len / 4) by (nonlinear_arith)
        requires
            rows <= len / 4 / w,
            w > 0,
    ;
    let count = w * rows;
    let px = read_pixels(rgba, count);
    let mut grid = to_grid(&px, w, rows);
    let row_limit = if h - 1 < rows { h - 1 } else { rows };
    let loops = if params.loops == 0 { 1 } else { params.loops };
    let one = AsdfSortParams {
        mode: params.mode,
        loops: 1,
        white_value: params.white_value,
        black_value: params.black_value,
        bright_value: params.bright_value,
        dark_value: params.dark_value,
    };
    let ghost g0 = rows_view(grid@);
    let mut i: u32 = 0;
    while i < loops
        invariant
            i <= loops,
            loops as nat == loop_count(params),
            w >= 1,
            row_limit <= rows,
            grid@.len() == rows,
            rows_of_width(rows_view(grid@), w as int),
            one == one_loop(params),
            rows_view(grid@) == asdf_rounds(one, g0, w as int, row_limit as int, i as nat),
        decreases loops - i,
    {
        sort_columns(&mut grid, w, one);
        sort_rows(&mut grid, w, row_limit, one);
        i += 1;
    }
    assert(grid@.len() * w <= usize::MAX) by (nonlinear_arith)
        requires
            grid@.len() == rows,
            w * rows <= len / 4,
    ;
    let out = from_grid(&grid, w);
    assert(out@.len() == count) by (nonlinear_arith)
        requires
            out@.len() == grid@.len() * w,
            grid@.len() == rows,
            count == w * rows,
    ;
    assert(rows as int == rows_held(len as int, w as int, h as int));
    assert(row_limit as int == row_pass_len(len as int, w as int, h as int));
    assert(g0 == grid_of(pixels_of(old(rgba)@, w * rows), w as int, rows as int));
    assert(4 * count == 4 * w * rows) by (nonlinear_arith)
        requires
            count == w * rows,
    ;
    write_pixels(rgba, &out);
}


// ---------------------------------------------------------------------------
// Laws: the sort only moves pixels.
// ---------------------------------------------------------------------------

proof fn lemma_sort_span_permutes(line: Seq<Rgba>, s: int, e: int)
    requires
        0 <= s <= e <= line.len(),
    ensures
        sort_span(line, s, e).to_multiset() == line.to_multiset(),
        sort_span(line, s, e).len() == line.len(),
{
    broadcast use vstd::seq_lib::lemma_multiset_commutative;

    lemma_sort_span_len(line, s, e);
    if s < e {
        let mid = line.subrange(s, e);
        lemma_stable_sorted(SortKey::ColorInt, mid);
        assert(line =~= line.take(s) + mid + line.skip(e));
        vstd::seq_lib::lemma_multiset_commutative(line.take(s) + mid, line.skip(e));
        vstd::seq_lib::lemma_multiset_commutative(line.take(s), mid);
        vstd::seq_lib::lemma_multiset_commutative(
            line.take(s) + stable_sorted(SortKey::ColorInt, mid),
            line.skip(e),
        );
        vstd::seq_lib::lemma_multiset_commutative(line.take(s), stable_sorted(SortKey::ColorInt, mid));
    }
}

proof fn lemma_sort_runs_permutes(p: AsdfSortParams, line: Seq<Rgba>, x: int, x_end: int)
    ensures
        sort_runs_from(p, line, x, x_end).to_multiset() == line.to_multiset(),
    decreases line.len() - x,
{
    if !(x_end < line.len() - 1) || x < 0 {
    } else {
        let s = first_start(p, line, x);
        if s < line.len() {
            let e = run_end(p, line, s);
            lemma_first_start_bounds(p, line, x);
            lemma_run_end_bounds(p, line, s);
            lemma_sort_span_permutes(line, s, e);
            lemma_sort_runs_permutes(p, sort_span(line, s, e), e + 1, e);
        }
    }
}

/// Sorting a line only reorders its pixels.
pub proof fn lemma_sort_line_permutes(p: AsdfSortParams, line: Seq<Rgba>)
    ensures
        sort_line(p, line).len() == line.len(),
        sort_line(p, line).to_multiset() == line.to_multiset(),
{
    lemma_sort_runs_len(p, line, 0, 0);
    lemma_sort_runs_permutes(p, line, 0, 0);
}

/// The grid with pixel `x` taken out of every row.
pub open spec fn strip_column(g: Seq<Seq<Rgba>>, x: int) -> Seq<Seq<Rgba>> {
    Seq::new(g.len(), |y: int| g[y].remove(x))
}

proof fn lemma_flatten_len(g: Seq<Seq<Rgba>>, w: int)
    requires
        rows_of_width(g, w),
    ensures
        flatten_rows(g).len() == g.len() * w,
    decreases g.len(),
{
    if g.len() > 0 {
        lemma_flatten_len(g.drop_last(), w);
        assert(flatten_rows(g).len() == (g.len() - 1) * w + w);
        assert((g.len() - 1) * w + w == g.len() * w) by (nonlinear_arith);
    }
}

proof fn lemma_flatten_split_column(g: Seq<Seq<Rgba>>, x: int)
    requires
        forall|y: int| 0 <= y < g.len() ==> x < #[trigger] g[y].len(),
        0 <= x,
    ensures
        flatten_rows(g).to_multiset() == flatten_rows(strip_column(g, x)).to_multiset().add(
            column(g, x).to_multiset(),
        ),
    decreases g.len(),
{
    broadcast use vstd::seq_lib::group_to_multiset_ensures;
    broadcast use vstd::multiset::group_multiset_axioms;

    if g.len() == 0 {
        assert(column(g, x) =~= Seq::<Rgba>::empty());
        assert(flatten_rows(strip_column(g, x)) == Seq::<Rgba>::empty());
        assert(column(g, x).to_multiset() =~= Multiset::empty());
        assert(flatten_rows(g).to_multiset() =~= Multiset::empty());
    } else {
        let g1 = g.drop_last();
        let last = g.last();
        lemma_flatten_split_column(g1, x);
        assert(strip_column(g, x).drop_last() =~= strip_column(g1, x));
        assert(strip_column(g, x).last() == last.remove(x));
        assert(column(g, x) =~= column(g1, x).push(last[x]));
        vstd::seq_lib::lemma_multiset_commutative(flatten_rows(g1), last);
        vstd::seq_lib::lemma_multiset_commutative(flatten_rows(strip_column(g1, x)), last.remove(x));
        assert(last.to_multiset() =~= last.remove(x).to_multiset().insert(last[x])) by {
            assert(last.to_multiset().count(last[x]) > 0) by {
                assert(last.contains(last[x]));
            }
        }
        let a = flatten_rows(strip_column(g1, x)).to_multiset();
        let b = column(g1, x).to_multiset();
        let r = last.remove(x).to_multiset();
        assert(flatten_rows(g).to_multiset() =~= a.add(b).add(r.insert(last[x])));
        assert(flatten_rows(strip_column(g, x)).to_multiset().add(column(g, x).to_multiset()) =~= a.add(
            r,
        ).add(b.insert(last[x])));
    }
}

proof fn lemma_set_column_permutes(g: Seq<Seq<Rgba>>, x: int, col: Seq<Rgba>)
    requires
        forall|y: int| 0 <= y < g.len() ==> x < #[trigger] g[y].len(),
        0 <= x,
        col.len() == g.len(),
        col.to_multiset() == column(g, x).to_multiset(),
    ensures
        flatten_rows(set_column(g, x, col)).to_multiset() == flatten_rows(g).to_multiset(),
{
    let g2 = set_column(g, x, col);
    lemma_flatten_split_column(g, x);
    assert forall|y: int| 0 <= y < g2.len() implies x < #[trigger] g2[y].len() by {}
    lemma_flatten_split_column(g2, x);
    assert(strip_column(g2, x) =~= strip_column(g, x)) by {
        assert forall|y: int| 0 <= y < g.len() implies #[trigger] strip_column(g2, x)[y] == strip_column(g, x)[y] by {
            assert(g[y].update(x, col[y]).remove(x) =~= g[y].remove(x));
        }
    }
    assert(column(g2, x) =~= col);
}

proof fn lemma_update_row_permutes(g: Seq<Seq<Rgba>>, k: int, row: Seq<Rgba>)
    requires
        0 <= k < g.len(),
        row.to_multiset() == g[k].to_multiset(),
    ensures
        flatten_rows(g.update(k, row)).to_multiset() == flatten_rows(g).to_multiset(),
    decreases g.len(),
{
    broadcast use vstd::seq_lib::lemma_multiset_commutative;

    let g2 = g.update(k, row);
    if k == g.len() - 1 {
        assert(g2.drop_last() =~= g.drop_last());
        vstd::seq_lib::lemma_multiset_commutative(flatten_rows(g.drop_last()), row);
        vstd::seq_lib::lemma_multiset_commutative(flatten_rows(g.drop_last()), g.last());
    } else {
        assert(g2.drop_last() =~= g.drop_last().update(k, row));
        lemma_update_row_permutes(g.drop_last(), k, row);
        vstd::seq_lib::lemma_multiset_commutative(flatten_rows(g2.drop_last()), g.last());
        vstd::seq_lib::lemma_multiset_commutative(flatten_rows(g.drop_last()), g.last());
    }
}

proof fn lemma_columns_sorted_permutes(p: AsdfSortParams, g: Seq<Seq<Rgba>>, w: int, k: int)
    requires
        rows_of_width(g, w),
        k <= w,
    ensures
        rows_of_width(columns_sorted(p, g, k), w),
        columns_sorted(p, g, k).len() == g.len(),
        flatten_rows(columns_sorted(p, g, k)).to_multiset() == flatten_rows(g).to_multiset(),
    decreases k,
{
    if k > 0 {
        lemma_columns_sorted_permutes(p, g, w, k - 1);
        let prev = columns_sorted(p, g, k - 1);
        let col = column(prev, k - 1);
        lemma_sort_line_permutes(p, col);
        assert forall|y: int| 0 <= y < prev.len() implies k - 1 < #[trigger] prev[y].len() by {}
        lemma_set_column_permutes(prev, k - 1, sort_line(p, col));
    }
}

proof fn lemma_rows_sorted_permutes(p: AsdfSortParams, g: Seq<Seq<Rgba>>, w: int, k: int)
    requires
        rows_of_width(g, w),
        k <= g.len(),
    ensures
        rows_of_width(rows_sorted(p, g, k), w),
        rows_sorted(p, g, k).len() == g.len(),
        flatten_rows(rows_sorted(p, g, k)).to_multiset() == flatten_rows(g).to_multiset(),
    decreases k,
{
    if k > 0 {
        lemma_rows_sorted_permutes(p, g, w, k - 1);
        let prev = rows_sorted(p, g, k - 1);
        lemma_sort_line_permutes(p, prev[k - 1]);
        lemma_update_row_permutes(prev, k - 1, sort_line(p, prev[k - 1]));
    }
}

proof fn lemma_rounds_permute(p: AsdfSortParams, g: Seq<Seq<Rgba>>, w: int, row_limit: int, n: nat)
    requires
        rows_of_width(g, w),
        w >= 1,
        row_limit <= g.len(),
    ensures
        rows_of_width(asdf_rounds(p, g, w, row_limit, n), w),
        asdf_rounds(p, g, w, row_limit, n).len() == g.len(),
        flatten_rows(asdf_rounds(p, g, w, row_limit, n)).to_multiset() == flatten_rows(g).to_multiset(),
    decreases n,
{
    if n > 0 {
        lemma_rounds_permute(p, g, w, row_limit, (n - 1) as nat);
        let prev = asdf_rounds(p, g, w, row_limit, (n - 1) as nat);
        lemma_columns_sorted_permutes(p, prev, w, w - 1);
        lemma_rows_sorted_permutes(p, columns_sorted(p, prev, w - 1), w, row_limit);
    }
}

proof fn lemma_flatten_grid_of(px: Seq<Rgba>, w: int, k: int)
    requires
        0 <= w,
        0 <= k,
        w * k <= px.len(),
    ensures
        flatten_rows(grid_of(px, w, k)) == px.take(w * k),
        rows_of_width(grid_of(px, w, k), w),
    decreases k,
{
    let g = grid_of(px, w, k);
    assert forall|y: int| 0 <= y < k implies #[trigger] g[y].len() == w by {
        assert(y * w + w <= w * k) by (nonlinear_arith)
            requires
                0 <= y < k,
                0 <= w,
        ;
        assert(0 <= y * w) by (nonlinear_arith)
            requires
                0 <= y,
                0 <= w,
        ;
    }
    if k == 0 {
        assert(w * k == 0) by (nonlinear_arith) requires k == 0;
        assert(px.take(0) =~= Seq::<Rgba>::empty());
        assert(flatten_rows(g) == Seq::<Rgba>::empty());
    } else {
        assert(w * (k - 1) <= w * k) by (nonlinear_arith)
            requires
                0 <= w,
                1 <= k,
        ;
        lemma_flatten_grid_of(px, w, k - 1);
        assert(g.drop_last() =~= grid_of(px, w, k - 1));
        assert((k - 1) * w == w * (k - 1) && (k - 1) * w + w == w * k) by (nonlinear_arith);
        assert(px.take(w * (k - 1)) + px.subrange((k - 1) * w, (k - 1) * w + w) =~= px.take(w * k));
        assert(g.last() == px.subrange((k - 1) * w, (k - 1) * w + w));
        assert(flatten_rows(g) == flatten_rows(g.drop_last()) + g.last());
    }
}

/// The ASDF sort keeps the buffer's length and the bytes past the sorted rows,
/// and it only moves pixels: the sorted rows hold the same pixels, alpha
/// included, as before.
pub proof fn lemma_asdf_permutes(buf: Seq<u8>, w: int, h: int, p: AsdfSortParams)
    requires
        w > 0,
        h > 0,
    ensures
        asdf_result(buf, w, h, p).len() == buf.len(),
        asdf_result(buf, w, h, p).skip(4 * w * rows_held(buf.len() as int, w, h)) == buf.skip(
            4 * w * rows_held(buf.len() as int, w, h),
        ),
        pixels_of(asdf_result(buf, w, h, p), w * rows_held(buf.len() as int, w, h)).to_multiset()
            == pixels_of(buf, w * rows_held(buf.len() as int, w, h)).to_multiset(),
{
    let rows = rows_held(buf.len() as int, w, h);
    let n = w * rows;
    assert(0 <= rows);
    assert(n <= (buf.len() as int) / 4) by (nonlinear_arith)
        requires
            rows <= (buf.len() as int) / 4 / w,
            w > 0,
            n == w * rows,
            0 <= rows,
    ;
    assert(0 <= n) by (nonlinear_arith)
        requires
            n == w * rows,
            0 <= rows,
            w > 0,
    ;
    let px = pixels_of(buf, n);
    let g = grid_of(px, w, rows);
    lemma_flatten_grid_of(px, w, rows);
    assert(px.take(w * rows) =~= px);
    let out = asdf_rounds(one_loop(p), g, w, row_pass_len(buf.len() as int, w, h), loop_count(p));
    lemma_rounds_permute(one_loop(p), g, w, row_pass_len(buf.len() as int, w, h), loop_count(p));
    lemma_flatten_len(out, w);
    assert(g.len() * w == n) by (nonlinear_arith)
        requires
            g.len() == rows,
            n == w * rows,
    ;
    let tail = buf.skip(4 * w * rows);
    lemma_pixels_of_bytes(flatten_rows(out), tail);
    assert(4 * w * rows == 4 * n) by (nonlinear_arith)
        requires
            n == w * rows,
    ;
    let res = bytes_of(flatten_rows(out)) + tail;
    assert(res.skip(4 * n) =~= tail);
}

/// The rows of a grid laid end to end and cut again into rows give the grid.
proof fn lemma_grid_of_flatten(g: Seq<Seq<Rgba>>, w: int)
    requires
        w >= 0,
        rows_of_width(g, w),
    ensures
        grid_of(flatten_rows(g), w, g.len() as int) == g,
    decreases g.len(),
{
    lemma_flatten_len(g, w);
    if g.len() > 0 {
        let k = g.len() as int;
        let front = g.drop_last();
        lemma_grid_of_flatten(front, w);
        lemma_flatten_len(front, w);
        let f = flatten_rows(g);
        let ff = flatten_rows(front);
        assert(f == ff + g.last());
        assert forall|y: int| 0 <= y < k implies #[trigger] grid_of(f, w, k)[y] == g[y] by {
            assert(y * w + w <= k * w && 0 <= y * w) by (nonlinear_arith)
                requires
                    0 <= y < k,
                    0 <= w,
            ;
            if y < k - 1 {
                assert(y * w + w <= (k - 1) * w) by (nonlinear_arith)
                    requires
                        0 <= y < k - 1,
                        0 <= w,
                ;
                assert(grid_of(ff, w, k - 1)[y] == front[y]);
                assert(f.subrange(y * w, y * w + w) =~= ff.subrange(y * w, y * w + w));
            } else {
                assert((k - 1) * w + w == k * w) by (nonlinear_arith);
                assert(f.subrange(y * w, y * w + w) =~= g.last());
            }
        }
        assert(grid_of(f, w, k) =~= g);
    } else {
        assert(grid_of(flatten_rows(g), w, 0) =~= g);
    }
}

/// `k` ASDF sorts of the buffer, one after the other, each with parameters `q`.
pub open spec fn asdf_repeat(buf: Seq<u8>, w: int, h: int, q: AsdfSortParams, k: nat) -> Seq<u8>
    decreases k,
{
    if k == 0 {
        buf
    } else {
        asdf_result(asdf_repeat(buf, w, h, q, (k - 1) as nat), w, h, q)
    }
}

proof fn lemma_asdf_repeat_rounds(buf: Seq<u8>, w: int, h: int, p: AsdfSortParams, k: nat)
    requires
        w > 0,
        h > 0,
        k >= 1,
    ensures
        ({
            let rows = rows_held(buf.len() as int, w, h);
            let g = grid_of(pixels_of(buf, w * rows), w, rows);
            let rl = row_pass_len(buf.len() as int, w, h);
            asdf_repeat(buf, w, h, one_loop(p), k) == bytes_of(flatten_rows(asdf_rounds(one_loop(p), g, w, rl, k)))
                + buf.skip(4 * w * rows)
        }),
    decreases k,
{
    let q = one_loop(p);
    assert(one_loop(q) == q);
    let rows = rows_held(buf.len() as int, w, h);
    let g = grid_of(pixels_of(buf, w * rows), w, rows);
    let rl = row_pass_len(buf.len() as int, w, h);
    assert(loop_count(q) == 1);
    if k == 1 {
        assert(asdf_rounds(q, g, w, rl, 1) == asdf_round(q, asdf_rounds(q, g, w, rl, 0), w, rl));
        assert(asdf_repeat(buf, w, h, q, 0) == buf);
        assert(asdf_repeat(buf, w, h, q, 1) == asdf_result(buf, w, h, q));
    } else {
        lemma_asdf_repeat_rounds(buf, w, h, p, (k - 1) as nat);
        let n = w * rows;
        assert(0 <= rows);
        assert(n <= (buf.len() as int) / 4 && 0 <= n) by (nonlinear_arith)
            requires
                rows <= (buf.len() as int) / 4 / w,
                w > 0,
                n == w * rows,
                0 <= rows,
        ;
        lemma_flatten_grid_of(pixels_of(buf, n), w, rows);
        let gk = asdf_rounds(q, g, w, rl, (k - 1) as nat);
        lemma_rounds_permute(q, g, w, rl, (k - 1) as nat);
        lemma_flatten_len(gk, w);
        assert(g.len() * w == n) by (nonlinear_arith)
            requires
                g.len() == rows,
                n == w * rows,
        ;
        let tail = buf.skip(4 * w * rows);
        assert(4 * w * rows == 4 * n) by (nonlinear_arith)
            requires
                n == w * rows,
        ;
        let bk = bytes_of(flatten_rows(gk)) + tail;
        lemma_pixels_of_bytes(flatten_rows(gk), tail);
        assert(bk.len() == buf.len());
        assert(pixels_of(bk, n) == flatten_rows(gk));
        lemma_grid_of_flatten(gk, w);
        assert(grid_of(pixels_of(bk, w * rows), w, rows) == gk);
        assert(bk.skip(4 * w * rows) =~= tail);
        assert(asdf_repeat(buf, w, h, q, k) == asdf_result(bk, w, h, q));
        assert(asdf_rounds(q, gk, w, rl, 1) == asdf_round(q, asdf_rounds(q, gk, w, rl, 0), w, rl));
        assert(asdf_rounds(q, g, w, rl, k) == asdf_round(q, gk, w, rl));
        assert(rows_held(bk.len() as int, w, h) == rows);
        assert(row_pass_len(bk.len() as int, w, h) == rl);
        assert(asdf_result(bk, w, h, q) == bytes_of(flatten_rows(asdf_rounds(q, gk, w, rl, 1))) + tail);
    }
}

proof fn lemma_asdf_repeat_empty(buf: Seq<u8>, w: int, h: int, q: AsdfSortParams, k: nat)
    requires
        w <= 0 || h <= 0,
    ensures
        asdf_repeat(buf, w, h, q, k) == buf,
    decreases k,
{
    if k > 0 {
        lemma_asdf_repeat_empty(buf, w, h, q, (k - 1) as nat);
    }
}

/// A sort with `loops` set to `n` is `n` one-loop sorts (`one_loop`: the same
/// parameters with `loops` one) run one after the other; `loops` zero counts
/// as one.
pub proof fn lemma_asdf_loops(buf: Seq<u8>, w: int, h: int, p: AsdfSortParams)
    ensures
        asdf_result(buf, w, h, p) == asdf_repeat(buf, w, h, one_loop(p), loop_count(p)),
{
    if w <= 0 || h <= 0 {
        lemma_asdf_repeat_empty(buf, w, h, one_loop(p), loop_count(p));
    } else {
        lemma_asdf_repeat_rounds(buf, w, h, p, loop_count(p));
    }
}

// ---------------------------------------------------------------------------
// Laws: every run of a line is sorted; the run tests of each mode.
// ---------------------------------------------------------------------------

/// The `k`-th run of a line as a scan finds it, starting at `x` with the run
/// before having ended at `x_end`: the scan goes on while the last run ended
/// before the line's last pixel; a run starts at the first pixel from the scan
/// point that is not skipped and ends at `run_end`; the next scan point is the
/// pixel after that end.
pub open spec fn nth_run(p: AsdfSortParams, line: Seq<Rgba>, x: int, x_end: int, k: nat) -> Option<(int, int)>
    decreases k,
{
    if !(x_end < line.len() - 1) || x < 0 {
        None
    } else {
        let s = first_start(p, line, x);
        if s >= line.len() {
            None
        } else if k == 0 {
            Some((s, run_end(p, line, s)))
        } else {
            nth_run(p, line, run_end(p, line, s) + 1, run_end(p, line, s), (k - 1) as nat)
        }
    }
}

proof fn lemma_first_start_agree(p: AsdfSortParams, a: Seq<Rgba>, b: Seq<Rgba>, x: int)
    requires
        a.len() == b.len(),
        forall|i: int| x <= i < a.len() ==> a[i] == b[i],
    ensures
        first_start(p, a, x) == first_start(p, b, x),
    decreases a.len() - x,
{
    if 0 <= x < a.len() && skips(p, a[x]) {
        lemma_first_start_agree(p, a, b, x + 1);
    }
}

proof fn lemma_first_stop_agree(p: AsdfSortParams, a: Seq<Rgba>, b: Seq<Rgba>, x: int)
    requires
        a.len() == b.len(),
        forall|i: int| x <= i < a.len() ==> a[i] == b[i],
    ensures
        first_stop(p, a, x) == first_stop(p, b, x),
    decreases a.len() - x,
{
    if 0 <= x < a.len() && continues(p, a[x]) {
        lemma_first_stop_agree(p, a, b, x + 1);
    }
}

proof fn lemma_sort_span_outside(line: Seq<Rgba>, s: int, e: int)
    requires
        0 <= s <= e <= line.len(),
    ensures
        sort_span(line, s, e).len() == line.len(),
        forall|i: int| 0 <= i < s ==> #[trigger] sort_span(line, s, e)[i] == line[i],
        forall|i: int| e <= i < line.len() ==> #[trigger] sort_span(line, s, e)[i] == line[i],
        sort_span(line, s, e).subrange(s, e) == stable_sorted(SortKey::ColorInt, line.subrange(s, e)),
{
    broadcast use vstd::seq_lib::group_to_multiset_ensures;

    lemma_sort_span_len(line, s, e);
    let mid = line.subrange(s, e);
    lemma_stable_sorted(SortKey::ColorInt, mid);
    let sorted = stable_sorted(SortKey::ColorInt, mid);
    if s < e {
        let r = sort_span(line, s, e);
        assert(r == line.take(s) + sorted + line.skip(e));
        assert forall|i: int| 0 <= i < s implies #[trigger] r[i] == line[i] by {}
        assert forall|i: int| e <= i < line.len() implies #[trigger] r[i] == line[i] by {
            assert(r[i] == line.skip(e)[i - e]);
        }
        assert(r.subrange(s, e) =~= sorted);
    } else {
        assert(mid =~= Seq::<Rgba>::empty());
        assert(sorted.len() == 0);
        assert(sort_span(line, s, e).subrange(s, e) =~= sorted);
    }
}

proof fn lemma_sort_runs_keeps_before(p: AsdfSortParams, line: Seq<Rgba>, x: int, x_end: int)
    requires
        0 <= x,
    ensures
        sort_runs_from(p, line, x, x_end).len() == line.len(),
        forall|i: int| 0 <= i < x && i < line.len() ==> #[trigger] sort_runs_from(p, line, x, x_end)[i] == line[i],
    decreases line.len() - x,
{
    lemma_sort_runs_len(p, line, x, x_end);
    if !(x_end < line.len() - 1) || x < 0 {
    } else {
        let s = first_start(p, line, x);
        if s < line.len() {
            lemma_first_start_bounds(p, line, x);
            let e = run_end(p, line, s);
            lemma_run_end_bounds(p, line, s);
            lemma_sort_span_outside(line, s, e);
            let l2 = sort_span(line, s, e);
            lemma_sort_runs_keeps_before(p, l2, e + 1, e);
            assert forall|i: int| 0 <= i < x && i < line.len() implies #[trigger] sort_runs_from(p, line, x, x_end)[i]
                == line[i] by {
                assert(sort_runs_from(p, line, x, x_end) == sort_runs_from(p, l2, e + 1, e));
                assert(l2[i] == line[i]);
            }
        }
    }
}

proof fn lemma_runs_sorted_from(p: AsdfSortParams, line: Seq<Rgba>, cur: Seq<Rgba>, x: int, x_end: int, k: nat)
    requires
        0 <= x,
        cur.len() == line.len(),
        forall|i: int| x <= i < line.len() ==> cur[i] == line[i],
        nth_run(p, line, x, x_end, k) is Some,
    ensures
        ({
            let (s, e) = nth_run(p, line, x, x_end, k).unwrap();
            &&& 0 <= s <= e < line.len()
            &&& is_stable_sort_of(
                SortKey::ColorInt,
                line.subrange(s, e),
                sort_runs_from(p, cur, x, x_end).subrange(s, e),
            )
        }),
    decreases k,
{
    let s = first_start(p, line, x);
    lemma_first_start_agree(p, cur, line, x);
    lemma_first_start_bounds(p, line, x);
    let e = run_end(p, line, s);
    lemma_run_end_bounds(p, line, s);
    if s + 1 < line.len() {
        lemma_first_stop_agree(p, cur, line, s + 1);
    }
    assert(run_end(p, cur, s) == e);
    lemma_sort_span_outside(cur, s, e);
    let l2 = sort_span(cur, s, e);
    assert(sort_runs_from(p, cur, x, x_end) == sort_runs_from(p, l2, e + 1, e));
    if k == 0 {
        lemma_sort_runs_keeps_before(p, l2, e + 1, e);
        let r = sort_runs_from(p, l2, e + 1, e);
        assert(r.subrange(s, e) =~= l2.subrange(s, e));
        assert(cur.subrange(s, e) =~= line.subrange(s, e));
        lemma_stable_sorted(SortKey::ColorInt, line.subrange(s, e));
    } else {
        assert forall|i: int| e + 1 <= i < line.len() implies l2[i] == line[i] by {
            assert(l2[i] == cur[i]);
        }
        lemma_runs_sorted_from(p, line, l2, e + 1, e, (k - 1) as nat);
    }
}

/// Sorting a line sorts every run of it, not only the first: for each run the
/// sort finds (`nth_run`, the scan going on after each run's end), the pixels
/// from the run's start up to its end pixel (excluded) come out as a stable
/// sort of the line's pixels there by colour integer.
pub proof fn lemma_sort_line_sorts_every_run(p: AsdfSortParams, line: Seq<Rgba>, k: nat)
    requires
        nth_run(p, line, 0, 0, k) is Some,
    ensures
        ({
            let (s, e) = nth_run(p, line, 0, 0, k).unwrap();
            &&& 0 <= s <= e < line.len()
            &&& is_stable_sort_of(SortKey::ColorInt, line.subrange(s, e), sort_line(p, line).subrange(s, e))
        }),
{
    lemma_runs_sorted_from(p, line, line, 0, 0, k);
}

/// The run tests of each mode. White: a pixel whose colour integer is below
/// `white_value` is skipped before a run, and one above it continues a run.
/// Black: above `black_value` is skipped, below it continues. Bright: a
/// brightest channel below `bright_value` is skipped, above it continues.
/// Dark: above `dark_value` is skipped, below it continues. No other
/// parameter takes part.
pub proof fn lemma_run_tests(p: AsdfSortParams, c: Rgba)
    ensures
        p.mode is White ==> skips(p, c) == (c.r * 65536 + c.g * 256 + c.b - 16777216 < p.white_value) && continues(p, c)
            == (c.r * 65536 + c.g * 256 + c.b - 16777216 > p.white_value),
        p.mode is Black ==> skips(p, c) == (c.r * 65536 + c.g * 256 + c.b - 16777216 > p.black_value) && continues(p, c)
            == (c.r * 65536 + c.g * 256 + c.b - 16777216 < p.black_value),
        p.mode is Bright ==> skips(p, c) == (c.r < p.bright_value && c.g < p.bright_value && c.b < p.bright_value)
            && continues(p, c) == (c.r > p.bright_value || c.g > p.bright_value || c.b > p.bright_value),
        p.mode is Dark ==> skips(p, c) == (c.r > p.dark_value || c.g > p.dark_value || c.b > p.dark_value)
            && continues(p, c) == (c.r < p.dark_value && c.g < p.dark_value && c.b < p.dark_value),
{
}

/// Two parameter sets whose run tests agree on every pixel.
pub open spec fn same_run_tests(p: AsdfSortParams, q: AsdfSortParams) -> bool {
    forall|c: Rgba|
        #![trigger skips(p, c)]
        #![trigger continues(p, c)]
        skips(p, c) == skips(q, c) && continues(p, c) == continues(q, c)
}

proof fn lemma_first_start_tests(p: AsdfSortParams, q: AsdfSortParams, line: Seq<Rgba>, x: int)
    requires
        same_run_tests(p, q),
    ensures
        first_start(p, line, x) == first_start(q, line, x),
    decreases line.len() - x,
{
    if 0 <= x < line.len() {
        assert(skips(p, line[x]) == skips(q, line[x]));
        lemma_first_start_tests(p, q, line, x + 1);
    }
}

proof fn lemma_first_stop_tests(p: AsdfSortParams, q: AsdfSortParams, line: Seq<Rgba>, x: int)
    requires
        same_run_tests(p, q),
    ensures
        first_stop(p, line, x) == first_stop(q, line, x),
    decreases line.len() - x,
{
    if 0 <= x < line.len() {
        assert(continues(p, line[x]) == continues(q, line[x]));
        lemma_first_stop_tests(p, q, line, x + 1);
    }
}

proof fn lemma_sort_runs_tests(p: AsdfSortParams, q: AsdfSortParams, line: Seq<Rgba>, x: int, x_end: int)
    requires
        same_run_tests(p, q),
    ensures
        sort_runs_from(p, line, x, x_end) == sort_runs_from(q, line, x, x_end),
    decreases line.len() - x,
{
    if !(x_end < line.len() - 1) || x < 0 {
    } else {
        lemma_first_start_tests(p, q, line, x);
        let s = first_start(p, line, x);
        if s < line.len() {
            lemma_first_start_bounds(p, line, x);
            lemma_first_stop_tests(p, q, line, s + 1);
            let e = run_end(p, line, s);
            assert(e == run_end(q, line, s));
            lemma_run_end_bounds(p, line, s);
            lemma_sort_span_len(line, s, e);
            lemma_sort_runs_tests(p, q, sort_span(line, s, e), e + 1, e);
        }
    }
}

proof fn lemma_grid_tests(p: AsdfSortParams, q: AsdfSortParams, g: Seq<Seq<Rgba>>, w: int, row_limit: int, n: nat)
    requires
        same_run_tests(p, q),
    ensures
        asdf_rounds(p, g, w, row_limit, n) == asdf_rounds(q, g, w, row_limit, n),
    decreases n,
{
    if n > 0 {
        lemma_grid_tests(p, q, g, w, row_limit, (n - 1) as nat);
        let prev = asdf_rounds(p, g, w, row_limit, (n - 1) as nat);
        lemma_columns_tests(p, q, prev, w - 1);
        lemma_rows_tests(p, q, columns_sorted(p, prev, w - 1), row_limit);
    }
}

proof fn lemma_columns_tests(p: AsdfSortParams, q: AsdfSortParams, g: Seq<Seq<Rgba>>, k: int)
    requires
        same_run_tests(p, q),
    ensures
        columns_sorted(p, g, k) == columns_sorted(q, g, k),
    decreases k,
{
    if k > 0 {
        lemma_columns_tests(p, q, g, k - 1);
        let prev = columns_sorted(p, g, k - 1);
        lemma_sort_runs_tests(p, q, column(prev, k - 1), 0, 0);
    }
}

proof fn lemma_rows_tests(p: AsdfSortParams, q: AsdfSortParams, g: Seq<Seq<Rgba>>, k: int)
    requires
        same_run_tests(p, q),
    ensures
        rows_sorted(p, g, k) == rows_sorted(q, g, k),
    decreases k,
{
    if k > 0 {
        lemma_rows_tests(p, q, g, k - 1);
        let prev = rows_sorted(p, g, k - 1);
        lemma_sort_runs_tests(p, q, prev[k - 1], 0, 0);
    }
}

/// The sort depends on its parameters only through the run tests and the
/// number of loops: two parameter sets whose tests agree on every pixel sort
/// every buffer alike.
pub proof fn lemma_asdf_same_tests(buf: Seq<u8>, w: int, h: int, p: AsdfSortParams, q: AsdfSortParams)
    requires
        same_run_tests(p, q),
        loop_count(p) == loop_count(q),
    ensures
        asdf_result(buf, w, h, p) == asdf_result(buf, w, h, q),
{
    assert(same_run_tests(one_loop(p), one_loop(q))) by {
        assert forall|c: Rgba| #[trigger] skips(one_loop(p), c) == skips(one_loop(q), c) && continues(one_loop(p), c)
            == continues(one_loop(q), c) by {
            assert(skips(p, c) == skips(q, c));
        }
    }
    if w > 0 && h > 0 {
        let rows = rows_held(buf.len() as int, w, h);
        let g = grid_of(pixels_of(buf, w * rows), w, rows);
        lemma_grid_tests(one_loop(p), one_loop(q), g, w, row_pass_len(buf.len() as int, w, h), loop_count(p));
    }
}

/// Each mode reads only its own threshold: two parameter sets with the same
/// mode, the same number of loops and the same threshold of that mode
/// (`white_value` for White, `black_value` for Black, `bright_value` for
/// Bright, `dark_value` for Dark) sort every buffer alike, whatever their other
/// thresholds.
pub proof fn lemma_asdf_mode_threshold(buf: Seq<u8>, w: int, h: int, p: AsdfSortParams, q: AsdfSortParams)
    requires
        p.mode == q.mode,
        p.loops == q.loops,
        p.mode is White ==> p.white_value == q.white_value,
        p.mode is Black ==> p.black_value == q.black_value,
        p.mode is Bright ==> p.bright_value == q.bright_value,
        p.mode is Dark ==> p.dark_value == q.dark_value,
    ensures
        asdf_result(buf, w, h, p) == asdf_result(buf, w, h, q),
{
    assert forall|c: Rgba| #[trigger] skips(p, c) == skips(q, c) && continues(p, c) == continues(q, c) by {
        lemma_run_tests(p, c);
        lemma_run_tests(q, c);
    }
    assert(same_run_tests(p, q));
    lemma_asdf_same_tests(buf, w, h, p, q);
}

} // verus!
