//! The grid: owns the two-dimensional boolean cell state and its
//! dimensions, with the pure helpers the engines build on.

use vstd::prelude::*;
use vstd::string::StringExecFns;

use crate::model::{blank, contains_coord, contains_coord_upto, lemma_contains_coord_iff,
    rows_view, wf_vec, with_seed};

verus! {

/// Relies on rand::random: draws an independent pseudo-random value.
/// Nothing is promised of the result.
pub assume_specification<T>[ rand::random::<T> ]() -> (r: T)
    where
        rand::distr::StandardUniform: rand::distr::Distribution<T>,
;

/// The character a cell renders as: a fixed printable mark when alive, a
/// space when dead.
pub open spec fn render_char(b: bool) -> char {
    if b {
        'O'
    } else {
        ' '
    }
}

/// One rendered grid row: a character per cell, closed by a newline.
pub open spec fn row_chars(row: Seq<bool>) -> Seq<char> {
    Seq::new(row.len(), |x: int| render_char(row[x])).push('\n')
}

/// The first `y` rows of the rendering.
pub open spec fn render_upto(c: Seq<Seq<bool>>, y: int) -> Seq<char>
    decreases y,
{
    if y <= 0 {
        Seq::empty()
    } else {
        render_upto(c, y - 1) + row_chars(c[y - 1])
    }
}

/// The full rendering of a cell matrix: its rows top to bottom, alive
/// cells as the mark, dead cells as spaces, each row newline-terminated.
pub open spec fn render_spec(c: Seq<Seq<bool>>) -> Seq<char> {
    render_upto(c, c.len() as int)
}

/// A fixed-size life grid: `height` rows by `width` columns of cells,
/// row-major, never resized after construction.
pub struct Lifegame {
    pub height: usize,
    pub width: usize,
    pub cells: Vec<Vec<bool>>,
}

impl Lifegame {
    /// Mathematical view of the cell state.
    pub open spec fn grid(&self) -> Seq<Seq<bool>> {
        rows_view(self.cells)
    }

    /// The cell matrix has exactly the grid's dimensions.
    pub open spec fn wf(&self) -> bool {
        wf_vec(self.cells, self.height as int, self.width as int)
    }

    /// Both dimensions equal those of `other`.
    pub open spec fn same_dims(&self, other: &Lifegame) -> bool {
        self.height == other.height && self.width == other.width
    }

    /// Fresh grid: every cell in the optional seed list starts alive, all
    /// others dead. Coordinates outside the grid are ignored, as the
    /// membership test never matches them.
    pub fn new(height: usize, width: usize, seed: Option<&Vec<(usize, usize)>>) -> (r: Lifegame)
        ensures
            r.height == height,
            r.width == width,
            r.wf(),
            seed is None ==> r.grid() == blank(height as nat, width as nat),
            seed matches Some(s) ==> r.grid() == with_seed(height as nat, width as nat, s@),
    {
        let mut cells: Vec<Vec<bool>> = Vec::new();
        for y in 0..height
            invariant
                cells@.len() == y,
                forall|yy: int| 0 <= yy < y ==> (#[trigger] cells@[yy])@.len() == width,
                forall|yy: int, xx: int|
                    0 <= yy < y && 0 <= xx < width ==> cells@[yy]@[xx] == (match seed {
                        Some(s) => contains_coord(s@, yy, xx),
                        None => false,
                    }),
        {
            let mut row: Vec<bool> = Vec::new();
            for x in 0..width
                invariant
                    row@.len() == x,
                    forall|xx: int|
                        0 <= xx < x ==> row@[xx] == (match seed {
                            Some(s) => contains_coord(s@, y as int, xx),
                            None => false,
                        }),
            {
                let alive = match seed {
                    Some(s) => seed_hits(s, y, x),
                    None => false,
                };
                row.push(alive);
            }
            cells.push(row);
        }
        let r = Lifegame { height, width, cells };
        if let Some(s) = seed {
            proof {
                assert(r.grid() =~~= with_seed(height as nat, width as nat, s@));
            }
        } else {
            proof {
                assert(r.grid() =~~= blank(height as nat, width as nat));
            }
        }
        r
    }

    /// Deep copy of the cell matrix.
    pub fn snapshot(&self) -> (r: Vec<Vec<bool>>)
        requires
            self.wf(),
        ensures
            rows_view(r) == self.grid(),
            wf_vec(r, self.height as int, self.width as int),
    {
        let mut out: Vec<Vec<bool>> = Vec::new();
        for y in 0..self.height
            invariant
                self.wf(),
                out@.len() == y,
                forall|yy: int| 0 <= yy < y ==> (#[trigger] out@[yy])@ == self.cells@[yy]@,
        {
            let src = &self.cells[y];
            let mut row: Vec<bool> = Vec::new();
            for x in 0..self.width
                invariant
                    self.wf(),
                    y < self.height,
                    src@ == self.cells@[y as int]@,
                    row@.len() == x,
                    forall|xx: int| 0 <= xx < x ==> row@[xx] == self.cells@[y as int]@[xx],
            {
                row.push(src[x]);
            }
            proof {
                assert(row@ =~= self.cells@[y as int]@);
            }
            out.push(row);
        }
        proof {
            assert(rows_view(out) =~~= self.grid());
            assert forall|yy: int| 0 <= yy < self.height implies (#[trigger] out@[yy])@.len()
                == self.width by {
                assert(out@[yy]@ == self.cells@[yy]@);
            }
        }
        out
    }

    /// Element-wise equality of the cell state against another matrix of the
    /// same shape.
    pub fn eq(&self, cs: &Vec<Vec<bool>>) -> (r: bool)
        requires
            self.wf(),
            wf_vec(*cs, self.height as int, self.width as int),
        ensures
            r <==> self.grid() == rows_view(*cs),
    {
        for y in 0..self.height
            invariant
                self.wf(),
                wf_vec(*cs, self.height as int, self.width as int),
                forall|yy: int, xx: int|
                    0 <= yy < y && 0 <= xx < self.width ==> self.cells@[yy]@[xx] == cs@[yy]@[xx],
        {
            for x in 0..self.width
                invariant
                    self.wf(),
                    wf_vec(*cs, self.height as int, self.width as int),
                    y < self.height,
                    forall|yy: int, xx: int|
                        0 <= yy < y && 0 <= xx < self.width ==> self.cells@[yy]@[xx]
                            == cs@[yy]@[xx],
                    forall|xx: int| 0 <= xx < x ==> self.cells@[y as int]@[xx] == cs@[y as int]@[xx],
            {
                if self.cells[y][x] != cs[y][x] {
                    proof {
                        assert(self.grid()[y as int][x as int] != rows_view(*cs)[y as int][x as int]);
                    }
                    return false;
                }
            }
        }
        proof {
            assert(self.grid() =~~= rows_view(*cs));
        }
        true
    }

    /// Sets a single cell, leaving every other cell unchanged.
    pub fn set_cell(&mut self, y: usize, x: usize, v: bool)
        requires
            old(self).wf(),
            y < old(self).height,
            x < old(self).width,
        ensures
            final(self).wf(),
            final(self).same_dims(old(self)),
            final(self).grid() == old(self).grid().update(
                y as int,
                old(self).grid()[y as int].update(x as int, v),
            ),
    {
        self.cells[y][x] = v;
        proof {
            assert(self.grid() =~~= old(self).grid().update(
                y as int,
                old(self).grid()[y as int].update(x as int, v),
            ));
        }
    }

    /// Sets every cell to dead.
    pub fn reset(&mut self)
        requires
            old(self).wf(),
        ensures
            final(self).wf(),
            final(self).same_dims(old(self)),
            final(self).grid() == blank(old(self).height as nat, old(self).width as nat),
    {
        let h = self.height;
        let w = self.width;
        for y in 0..h
            invariant
                self.wf(),
                self.height == h,
                self.width == w,
                forall|yy: int, xx: int|
                    0 <= yy < y && 0 <= xx < w ==> self.cells@[yy]@[xx] == false,
        {
            let mut row: Vec<bool> = Vec::new();
            for x in 0..w
                invariant
                    row@.len() == x,
                    forall|xx: int| 0 <= xx < x ==> row@[xx] == false,
            {
                row.push(false);
            }
            self.cells[y] = row;
        }
        proof {
            assert(self.grid() =~~= blank(old(self).height as nat, old(self).width as nat));
        }
    }

    /// Sets every listed coordinate alive; cells already alive stay alive.
    /// Callers that need the seed to be exclusive reset the grid first.
    pub fn apply_seed(&mut self, seed: &Vec<(usize, usize)>)
        requires
            old(self).wf(),
            forall|i: int|
                0 <= i < seed@.len() ==> (#[trigger] seed@[i]).0 < old(self).height
                    && seed@[i].1 < old(self).width,
        ensures
            final(self).wf(),
            final(self).same_dims(old(self)),
            forall|y: int, x: int|
                0 <= y < final(self).height && 0 <= x < final(self).width ==>
                    final(self).grid()[y][x] == (old(self).grid()[y][x]
                        || contains_coord(seed@, y, x)),
    {
        let ghost g0 = *self;
        let n = seed.len();
        let mut i: usize = 0;
        while i < n
            invariant
                self.wf(),
                self.same_dims(&g0),
                g0.wf(),
                i <= n,
                n == seed@.len(),
                forall|k: int|
                    0 <= k < seed@.len() ==> (#[trigger] seed@[k]).0 < self.height && seed@[k].1
                        < self.width,
                forall|y: int, x: int|
                    0 <= y < self.height && 0 <= x < self.width ==> self.cells@[y]@[x] == ((
                    #[trigger] g0.cells@[y]@[x]) || contains_coord_upto(seed@, i as int, y, x)),
            decreases n - i,
        {
            proof {
                assert(forall|y: int, x: int|
                    0 <= y < self.height && 0 <= x < self.width ==> self.cells@[y]@[x] == ((
                    #[trigger] g0.cells@[y]@[x]) || contains_coord_upto(seed@, i as int, y, x)));
            }
            let ghost iold = i as int;
            let c = seed[i];
            let y = c.0;
            let x = c.1;
            let ghost prev = *self;
            self.set_cell(y, x, true);
            i = i + 1;
            proof {
                assert(seed@[iold].0 == y && seed@[iold].1 == x);
                assert(i as int == iold + 1);
                assert forall|yy: int, xx: int|
                    0 <= yy < self.height && 0 <= xx < self.width implies self.cells@[yy]@[xx]
                    == ((#[trigger] g0.cells@[yy]@[xx]) || contains_coord_upto(
                    seed@,
                    i as int,
                    yy,
                    xx,
                )) by {
                    assert(prev.cells@[yy]@[xx] == (g0.cells@[yy]@[xx] || contains_coord_upto(
                        seed@,
                        iold,
                        yy,
                        xx,
                    )));
                    if yy == y as int && xx == x as int {
                        assert(self.grid()[yy][xx]);
                        assert(self.cells@[yy]@[xx]);
                    } else {
                        assert(self.grid()[yy][xx] == prev.grid()[yy][xx]);
                        assert(self.cells@[yy]@[xx] == prev.cells@[yy]@[xx]);
                    }
                }
            }
        }
        proof {
            assert(forall|y: int, x: int|
                0 <= y < self.height && 0 <= x < self.width ==> self.cells@[y]@[x] == ((
                #[trigger] g0.cells@[y]@[x]) || contains_coord_upto(seed@, i as int, y, x)));
            assert forall|y: int, x: int|
                0 <= y < self.height && 0 <= x < self.width implies self.grid()[y][x] == (old(
            self).grid()[y][x] || contains_coord(seed@, y, x)) by {
                assert(self.cells@[y]@[x] == (g0.cells@[y]@[x] || contains_coord_upto(
                    seed@,
                    seed@.len() as int,
                    y,
                    x,
                )));
                assert(self.grid()[y][x] == self.cells@[y]@[x]);
                assert(old(self).grid()[y][x] == g0.cells@[y]@[x]);
            }
        }
    }

    /// Alternate initialisation: fills every cell independently with a
    /// pseudo-random boolean. The dimensions are untouched; nothing is
    /// promised of the cell values.
    pub fn random(&mut self)
        requires
            old(self).wf(),
        ensures
            final(self).wf(),
            final(self).same_dims(old(self)),
    {
        let h = self.height;
        let w = self.width;
        let mut y: usize = 0;
        while y < h
            invariant
                self.wf(),
                self.height == h,
                self.width == w,
            decreases h - y,
        {
            let mut x: usize = 0;
            while x < w
                invariant
                    self.wf(),
                    self.height == h,
                    self.width == w,
                    y < h,
                decreases w - x,
            {
                let d: u64 = rand::random::<u64>();
                self.set_cell(y, x, d % 2 == 1);
                x = x + 1;
            }
            y = y + 1;
        }
    }

    /// Renders the grid as text: one character per cell, alive cells as
    /// the mark and dead cells as spaces, rows top to bottom and each
    /// closed by a newline.
    pub fn render(&self) -> (out: String)
        requires
            self.wf(),
        ensures
            out@ == render_spec(self.grid()),
    {
        let ghost c = self.grid();
        let mut out = String::new();
        let h = self.height;
        let w = self.width;
        proof {
            assert(out@ =~= render_upto(c, 0));
        }
        let mut y: usize = 0;
        while y < h
            invariant
                self.wf(),
                self.height == h,
                self.width == w,
                c == self.grid(),
                y <= h,
                out@ == render_upto(c, y as int),
            decreases h - y,
        {
            let ghost yold = y as int;
            let mut x: usize = 0;
            proof {
                assert(out@ =~= render_upto(c, yold) + Seq::new(
                    0,
                    |k: int| render_char(c[yold][k]),
                ));
            }
            while x < w
                invariant
                    self.wf(),
                    self.height == h,
                    self.width == w,
                    c == self.grid(),
                    y < h,
                    y == yold,
                    x <= w,
                    out@ == render_upto(c, yold) + Seq::new(
                        x as nat,
                        |k: int| render_char(c[yold][k]),
                    ),
                decreases w - x,
            {
                let ghost out0 = out@;
                if self.cells[y][x] {
                    proof {
                        reveal_strlit("O");
                    }
                    out.append("O");
                    proof {
                        assert(out@ =~= out0.push('O'));
                    }
                } else {
                    proof {
                        reveal_strlit(" ");
                    }
                    out.append(" ");
                    proof {
                        assert(out@ =~= out0.push(' '));
                    }
                }
                x = x + 1;
                proof {
                    assert(out0.push(render_char(c[yold][x - 1])) =~= render_upto(c, yold)
                        + Seq::new(x as nat, |k: int| render_char(c[yold][k])));
                    assert(out@ == render_upto(c, yold) + Seq::new(
                        x as nat,
                        |k: int| render_char(c[yold][k]),
                    ));
                }
            }
            let ghost out1 = out@;
            proof {
                reveal_strlit("\n");
            }
            out.append("\n");
            y = y + 1;
            proof {
                assert(c[yold].len() == w);
                assert(row_chars(c[yold]) =~= Seq::new(
                    w as nat,
                    |k: int| render_char(c[yold][k]),
                ).push('\n'));
                assert(out@ =~= out1.push('\n'));
                assert(out@ =~= render_upto(c, yold) + row_chars(c[yold]));
                assert(out@ == render_upto(c, y as int));
            }
        }
        proof {
            assert(c.len() == h);
        }
        out
    }
}

/// Whether the coordinate list holds the pair `(y, x)`: the executable
/// membership test behind seeding.
pub fn seed_hits(seed: &Vec<(usize, usize)>, y: usize, x: usize) -> (r: bool)
    ensures
        r == contains_coord(seed@, y as int, x as int),
{
    let n = seed.len();
    for i in 0..n
        invariant
            n == seed@.len(),
            forall|k: int| 0 <= k < i ==> !((#[trigger] seed@[k]).0 == y && seed@[k].1 == x),
    {
        let c = seed[i];
        if c.0 == y && c.1 == x {
            proof {
                lemma_contains_coord_iff(seed@, y as int, x as int);
                assert(seed@[i as int].0 == y as int && seed@[i as int].1 == x as int);
            }
            return true;
        }
    }
    proof {
        lemma_contains_coord_iff(seed@, y as int, x as int);
    }
    false
}

} // verus!

