use vstd::prelude::*;
use ndarray::{Array1, Array2};
use crate::element::{Cx, zero};

verus! {

/// A dense square matrix of complex fixed-point entries, stored in an
/// `ndarray::Array2`. Only the functions of this module build or change one.
#[verifier::external_body]
pub struct Grid {
    inner: Array2<Cx>,
}

/// The entries of a grid, row by row.
pub uninterp spec fn grid(g: Grid) -> Seq<Seq<Cx>>;

/// The `n`-by-`n` matrix of zeros.
pub open spec fn zero_mat(n: nat) -> Seq<Seq<Cx>> {
    Seq::new(n, |r: int| Seq::new(n, |c: int| zero()))
}

/// `n * n` entries can be allocated by `ndarray`.
pub open spec fn size_ok(n: int) -> bool {
    0 <= n && n * n <= isize::MAX
}

/// A grid of `n` rows of `n` entries.
pub open spec fn is_square(g: Seq<Seq<Cx>>, n: nat) -> bool {
    g.len() == n && forall|i: int| 0 <= i < n ==> #[trigger] g[i].len() == n
}

/// Relies on `Array2::from_elem`: an `n`-by-`n` array of copies of `x`; it
/// panics only when the element count overflows `isize`.
#[verifier::external_body]
fn filled(n: usize, x: Cx) -> (r: Grid)
    requires
        n * n <= isize::MAX,
    ensures
        grid(r) == Seq::new(n as nat, |i: int| Seq::new(n as nat, |j: int| x)),
{
    Grid { inner: Array2::from_elem((n, n), x) }
}

/// Relies on indexing an `Array2` by `[i, j]`: the entry at row `i`, column
/// `j`, which must be in bounds.
#[verifier::external_body]
fn at(g: &Grid, i: usize, j: usize) -> (r: Cx)
    requires
        i < grid(*g).len(),
        j < grid(*g)[i as int].len(),
    ensures
        r == grid(*g)[i as int][j as int],
{
    g.inner[[i, j]]
}

/// Relies on assigning through `IndexMut` of an `Array2` at `[i, j]`: that
/// entry is replaced, every other entry is kept.
#[verifier::external_body]
fn put(g: &mut Grid, i: usize, j: usize, x: Cx)
    requires
        i < grid(*old(g)).len(),
        j < grid(*old(g))[i as int].len(),
    ensures
        grid(*final(g)) == grid(*old(g)).update(
            i as int,
            grid(*old(g))[i as int].update(j as int, x),
        ),
{
    g.inner[[i, j]] = x;
}

/// Relies on `Array2::clone`: a copy with the same entries.
#[verifier::external_body]
fn copy_grid(g: &Grid) -> (r: Grid)
    ensures
        grid(r) == grid(*g),
{
    Grid { inner: g.inner.clone() }
}

/// Relies on `Array2::nrows`: the number of rows.
#[verifier::external_body]
fn row_count(g: &Grid) -> (r: usize)
    ensures
        r == grid(*g).len(),
{
    g.inner.nrows()
}

pub fn zero_grid(n: usize) -> (r: Grid)
    requires
        size_ok(n as int),
    ensures
        grid(r) == zero_mat(n as nat),
{
    filled(n, crate::element::cx_zero())
}

impl Grid {
    /// Number of rows (and of columns).
    pub fn size(&self) -> (r: usize)
        ensures
            r == grid(*self).len(),
    {
        row_count(self)
    }

    /// The entry at row `i`, column `j`.
    pub fn get(&self, i: usize, j: usize) -> (r: Cx)
        requires
            i < grid(*self).len(),
            j < grid(*self)[i as int].len(),
        ensures
            r == grid(*self)[i as int][j as int],
    {
        at(self, i, j)
    }

    /// Sets the entry at row `i`, column `j`.
    pub fn set(&mut self, i: usize, j: usize, x: Cx)
        requires
            i < grid(*old(self)).len(),
            j < grid(*old(self))[i as int].len(),
        ensures
            grid(*final(self)) == grid(*old(self)).update(
                i as int,
                grid(*old(self))[i as int].update(j as int, x),
            ),
    {
        put(self, i, j, x)
    }

    /// A copy with the same entries.
    pub fn duplicate(&self) -> (r: Grid)
        ensures
            grid(r) == grid(*self),
    {
        copy_grid(self)
    }
}

/// Copies the `rows`-by-`cols` block of `src` that starts at `(off, off)`
/// into the top-left corner of `dst`.
pub fn copy_block(dst: &mut Grid, src: &Grid, rows: usize, cols: usize, off: usize)
    requires
        is_square(grid(*old(dst)), grid(*old(dst)).len()),
        is_square(grid(*src), grid(*src).len()),
        rows <= grid(*old(dst)).len(),
        cols <= grid(*old(dst)).len(),
        rows + off <= grid(*src).len(),
        cols + off <= grid(*src).len(),
        grid(*src).len() <= usize::MAX,
    ensures
        grid(*final(dst)).len() == grid(*old(dst)).len(),
        is_square(grid(*final(dst)), grid(*old(dst)).len()),
        forall|r: int, c: int|
            0 <= r < grid(*old(dst)).len() && 0 <= c < grid(*old(dst)).len() ==> #[trigger] grid(
                *final(dst),
            )[r][c] == if r < rows && c < cols {
                grid(*src)[r + off][c + off]
            } else {
                grid(*old(dst))[r][c]
            },
{
    let ghost d0 = grid(*dst);
    let ghost s = grid(*src);
    let ghost n = d0.len();
    let mut i: usize = 0;
    while i < rows
        invariant
            i <= rows,
            d0 == grid(*old(dst)),
            s == grid(*src),
            n == d0.len(),
            is_square(d0, n),
            is_square(s, s.len()),
            rows <= n,
            cols <= n,
            rows + off <= s.len(),
            cols + off <= s.len(),
            s.len() <= usize::MAX,
            is_square(grid(*dst), n),
            forall|r: int, c: int|
                0 <= r < n && 0 <= c < n ==> #[trigger] grid(*dst)[r][c] == if r < i && c < cols {
                    s[r + off][c + off]
                } else {
                    d0[r][c]
                },
        decreases rows - i,
    {
        let mut j: usize = 0;
        while j < cols
            invariant
                i < rows,
                j <= cols,
                d0 == grid(*old(dst)),
                s == grid(*src),
                n == d0.len(),
                is_square(d0, n),
                is_square(s, s.len()),
                rows <= n,
                cols <= n,
                rows + off <= s.len(),
                cols + off <= s.len(),
                s.len() <= usize::MAX,
                is_square(grid(*dst), n),
                forall|r: int, c: int|
                    0 <= r < n && 0 <= c < n ==> #[trigger] grid(*dst)[r][c] == if (r < i || (r == i
                        && c < j)) && c < cols {
                        s[r + off][c + off]
                    } else {
                        d0[r][c]
                    },
            decreases cols - j,
        {
            let x = at(src, i + off, j + off);
            put(dst, i, j, x);
            j = j + 1;
        }
        i = i + 1;
    }
}

/// A vector of complex fixed-point entries, stored in an `ndarray::Array1`.
/// Only the functions of this module build or change one.
#[verifier::external_body]
pub struct Line {
    inner: Array1<Cx>,
}

/// The entries of a line, in order.
pub uninterp spec fn line(l: Line) -> Seq<Cx>;

/// Relies on `Array1::from_elem`: `n` copies of `x`; it panics only when `n`
/// overflows `isize`.
#[verifier::external_body]
fn line_filled(n: usize, x: Cx) -> (r: Line)
    requires
        n <= isize::MAX,
    ensures
        line(r) == Seq::new(n as nat, |i: int| x),
{
    Line { inner: Array1::from_elem(n, x) }
}

/// Relies on indexing an `Array1` by `[i]`: the entry at `i`, in bounds.
#[verifier::external_body]
fn line_at(l: &Line, i: usize) -> (r: Cx)
    requires
        i < line(*l).len(),
    ensures
        r == line(*l)[i as int],
{
    l.inner[i]
}

/// Relies on assigning through `IndexMut` of an `Array1` at `[i]`: that
/// entry is replaced, every other entry is kept.
#[verifier::external_body]
fn line_put(l: &mut Line, i: usize, x: Cx)
    requires
        i < line(*old(l)).len(),
    ensures
        line(*final(l)) == line(*old(l)).update(i as int, x),
{
    l.inner[i] = x;
}

/// Relies on `Array1::clone`: a copy with the same entries.
#[verifier::external_body]
fn copy_line(l: &Line) -> (r: Line)
    ensures
        line(r) == line(*l),
{
    Line { inner: l.inner.clone() }
}

/// Relies on `Array1::len`: the number of entries.
#[verifier::external_body]
fn line_len(l: &Line) -> (r: usize)
    ensures
        r == line(*l).len(),
{
    l.inner.len()
}

pub open spec fn zero_vec(n: nat) -> Seq<Cx> {
    Seq::new(n, |c: int| zero())
}

pub fn zero_line(n: usize) -> (r: Line)
    requires
        n <= isize::MAX,
    ensures
        line(r) == zero_vec(n as nat),
{
    line_filled(n, crate::element::cx_zero())
}

impl Line {
    /// Number of entries.
    pub fn len(&self) -> (r: usize)
        ensures
            r == line(*self).len(),
    {
        line_len(self)
    }

    /// The entry at `i`.
    pub fn get(&self, i: usize) -> (r: Cx)
        requires
            i < line(*self).len(),
        ensures
            r == line(*self)[i as int],
    {
        line_at(self, i)
    }

    /// Sets the entry at `i`.
    pub fn set(&mut self, i: usize, x: Cx)
        requires
            i < line(*old(self)).len(),
        ensures
            line(*final(self)) == line(*old(self)).update(i as int, x),
    {
        line_put(self, i, x)
    }

    /// A copy with the same entries.
    pub fn duplicate(&self) -> (r: Line)
        ensures
            line(r) == line(*self),
    {
        copy_line(self)
    }
}

/// Copies `count` entries of `src`, starting at `off`, to the front of `dst`.
pub fn copy_line_block(dst: &mut Line, src: &Line, count: usize, off: usize)
    requires
        count <= line(*old(dst)).len(),
        count + off <= line(*src).len(),
        line(*src).len() <= usize::MAX,
    ensures
        line(*final(dst)).len() == line(*old(dst)).len(),
        forall|i: int|
            0 <= i < line(*old(dst)).len() ==> #[trigger] line(*final(dst))[i] == if i < count {
                line(*src)[i + off]
            } else {
                line(*old(dst))[i]
            },
{
    let ghost d0 = line(*dst);
    let mut i: usize = 0;
    while i < count
        invariant
            i <= count,
            d0 == line(*old(dst)),
            count <= d0.len(),
            count + off <= line(*src).len(),
            line(*src).len() <= usize::MAX,
            line(*dst).len() == d0.len(),
            forall|k: int|
                0 <= k < d0.len() ==> #[trigger] line(*dst)[k] == if k < i {
                    line(*src)[k + off]
                } else {
                    d0[k]
                },
        decreases count - i,
    {
        let x = line_at(src, i + off);
        line_put(dst, i, x);
        i = i + 1;
    }
}

} // verus!
