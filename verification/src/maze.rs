//! The parsed maze: tile storage in row-major order, bounds and occupancy
//! queries, boundary-opening detection, neighbour enumeration, and the
//! text encoding (`'-'` = passable, `'#'` = wall) read and written by
//! [`Maze::read`] and [`Maze::to_text`].

use vstd::prelude::*;
use vstd::arithmetic::div_mod::{lemma_fundamental_div_mod, lemma_fundamental_div_mod_converse};
use crate::coord::{Coord, adjacent, west_of, north_of, south_of, east_of};
use crate::text::{rows_raw, rows_of, rows_ok, lemma_rows_raw_nonempty, lemma_rows_raw_prepend_row, lemma_trim_leading_skip, lemma_trim_trailing_take};
use vstd::string::StringExecFns;
use vstd::string::StrSliceExecFns;

verus! {

/// The classification of a single grid cell. The searches treat every
/// non-`Wall` tile uniformly as traversable.
#[derive(Clone, Copy, PartialEq, Eq, Structural, Debug)]
pub enum Tile {
    Wall,
    Path,
}

/// The three error conditions the maze core distinguishes.
#[derive(Clone, Copy, PartialEq, Eq, Structural, Debug)]
pub enum MazeError {
    /// Empty text, inconsistent row widths, or an unrecognized character.
    MalformedInput,
    /// Fewer than two boundary openings exist, so no start/end pair can be chosen.
    InsufficientOpenings,
    /// No route exists between the requested start and end.
    Unreachable,
}

/// A rectangular maze: `width * height` tiles stored as one flat
/// row-major sequence (index = `y * width + x`). Immutable once parsed.
#[derive(Debug, PartialEq, Eq)]
pub struct Maze {
    pub width: usize,
    pub height: usize,
    /// The tiles, one per cell, in row-major order.
    pub data: Vec<Tile>,
}

/// Maps a tile to the character that encodes it.
pub open spec fn char_of_tile(t: Tile) -> char {
    match t {
        Tile::Path => '-',
        Tile::Wall => '#',
    }
}

/// Maps an encoding character to its tile; meaningful only when
/// `is_tile_char` holds.
pub open spec fn tile_of_char(ch: char) -> Tile {
    if ch == '-' {
        Tile::Path
    } else {
        Tile::Wall
    }
}

/// The two characters that encode a tile.
pub open spec fn is_tile_char(ch: char) -> bool {
    ch == '-' || ch == '#'
}

/// The flat cell indices below `n`.
pub open spec fn indices_below(n: nat) -> Set<usize>
    decreases n,
{
    if n == 0 {
        Set::empty()
    } else {
        indices_below((n - 1) as nat).insert((n - 1) as usize)
    }
}

/// The index set below `n` is finite, no larger than `n`, and holds
/// exactly the indices below `n`.
pub proof fn lemma_indices_below(n: nat)
    requires
        n <= usize::MAX,
    ensures
        indices_below(n).finite(),
        indices_below(n).len() <= n,
        forall|k: usize| indices_below(n).contains(k) <==> (k as nat) < n,
    decreases n,
{
    if n > 0 {
        lemma_indices_below((n - 1) as nat);
    }
}

/// The rows of a full text, given the rows already finished, the row
/// being assembled, and the text still to process.
spec fn assemble(done: Seq<Seq<char>>, cur: Seq<char>, rest: Seq<char>) -> Seq<Seq<char>> {
    done + seq![cur + rows_raw(rest)[0]] + rows_raw(rest).drop_first()
}

impl Maze {
    /// The flat row-major tile sequence.
    pub open spec fn grid(self) -> Seq<Tile> {
        self.data@
    }

    /// Well-formedness: positive extents and a fully populated grid.
    pub open spec fn wf(self) -> bool {
        &&& self.width > 0
        &&& self.height > 0
        &&& self.grid().len() == self.width * self.height
    }

    /// A position lies inside the grid.
    pub open spec fn in_bounds(self, c: Coord) -> bool {
        c.x < self.width && c.y < self.height
    }

    /// The flat row-major index of an in-bounds position.
    pub open spec fn spec_idx(self, c: Coord) -> int {
        c.y * self.width + c.x
    }

    /// The position stored at flat index `i`.
    pub open spec fn coord_at(self, i: int) -> Coord {
        Coord { x: (i % (self.width as int)) as usize, y: (i / (self.width as int)) as usize }
    }

    /// The tile stored at an in-bounds position.
    pub open spec fn tile(self, c: Coord) -> Tile
        recommends
            self.wf(),
            self.in_bounds(c),
    {
        self.grid()[self.spec_idx(c)]
    }

    /// A traversable cell: in bounds and not a wall.
    pub open spec fn is_open(self, c: Coord) -> bool {
        self.in_bounds(c) && self.tile(c) == Tile::Path
    }

    /// The position lies on the grid's outer ring.
    pub open spec fn on_edge(self, c: Coord) -> bool
        recommends
            self.wf(),
            self.in_bounds(c),
    {
        c.x == 0 || c.x == self.width - 1 || c.y == 0 || c.y == self.height - 1
    }

    /// A boundary opening: a traversable cell on the outer ring.
    pub open spec fn opening(self, c: Coord) -> bool {
        self.in_bounds(c) && self.on_edge(c) && self.tile(c) == Tile::Path
    }

    /// The flat indices of the traversable cells.
    pub open spec fn open_cells(self) -> Set<usize> {
        Set::new(|k: usize| (k as int) < self.grid().len() && self.is_open(self.coord_at(k as int)))
    }

    /// There are finitely many traversable cells, at most one per grid cell.
    pub proof fn lemma_open_cells_finite(self)
        requires
            self.wf(),
        ensures
            self.open_cells().finite(),
            self.open_cells().len() <= self.grid().len(),
    {
        assert(self.data.len() == self.grid().len());
        let n = self.grid().len() as nat;
        lemma_indices_below(n);
        assert(self.open_cells().subset_of(indices_below(n)));
        vstd::set_lib::lemma_set_subset_finite(indices_below(n), self.open_cells());
        vstd::set_lib::lemma_len_subset(self.open_cells(), indices_below(n));
    }

    /// Flat indices never go negative.
    pub proof fn lemma_idx_nonneg(self, c: Coord)
        ensures
            self.spec_idx(c) >= 0,
    {
        assert(c.y as int * self.width as int >= 0) by (nonlinear_arith);
    }

    /// Flat indices of in-bounds positions stay below the grid size.
    pub proof fn lemma_idx_in_range(self, c: Coord)
        requires
            self.wf(),
            self.in_bounds(c),
        ensures
            0 <= self.spec_idx(c) < self.grid().len(),
    {
        assert(c.y * self.width + c.x < self.width * self.height) by (nonlinear_arith)
            requires
                c.x < self.width,
                c.y < self.height,
        ;
    }

    /// Decoding a flat index returns the unique in-bounds position that
    /// encodes back to it.
    pub proof fn lemma_coord_at_idx(self, i: int)
        requires
            self.wf(),
            0 <= i < self.width * self.height,
        ensures
            self.in_bounds(self.coord_at(i)),
            self.spec_idx(self.coord_at(i)) == i,
    {
        let w = self.width as int;
        lemma_fundamental_div_mod(i, w);
        assert(i / w < self.height) by (nonlinear_arith)
            requires
                w > 0,
                0 <= i < w * (self.height as int),
                i == w * (i / w) + (i % w),
                0 <= i % w < w,
        ;
        assert((i / w) * w == w * (i / w)) by (nonlinear_arith);
    }

    /// Encoding an in-bounds position and decoding the result is the identity,
    /// so flat indices identify in-bounds positions uniquely.
    pub proof fn lemma_idx_coord_at(self, c: Coord)
        requires
            self.wf(),
            self.in_bounds(c),
        ensures
            self.coord_at(self.spec_idx(c)) == c,
    {
        let w = self.width as int;
        lemma_fundamental_div_mod_converse(self.spec_idx(c), w, c.y as int, c.x as int);
    }

    /// Computes the flat row-major index of an in-bounds position.
    pub fn idx(&self, c: Coord) -> (r: usize)
        requires
            self.wf(),
            self.in_bounds(c),
        ensures
            r == self.spec_idx(c),
            r < self.grid().len(),
    {
        proof {
            self.lemma_idx_in_range(c);
            assert(self.data.len() == self.grid().len());
        }
        c.y * self.width + c.x
    }

    /// Decodes a flat row-major index back into a position.
    pub fn coord_of(&self, i: usize) -> (r: Coord)
        requires
            self.wf(),
            i < self.grid().len(),
        ensures
            r == self.coord_at(i as int),
            self.in_bounds(r),
            self.spec_idx(r) == i,
    {
        proof {
            self.lemma_coord_at_idx(i as int);
        }
        Coord { x: i % self.width, y: i / self.width }
    }

    /// Bounds query: the position lies inside the grid.
    pub fn is_inbounds(&self, coord: Coord) -> (r: bool)
        ensures
            r == self.in_bounds(coord),
    {
        coord.x < self.width && coord.y < self.height
    }

    /// The position lies on the outer ring. Callers bounds-check first:
    /// the predicate is only called on in-bounds positions.
    pub fn is_edge(&self, coord: Coord) -> (r: bool)
        requires
            self.wf(),
            self.in_bounds(coord),
        ensures
            r == self.on_edge(coord),
    {
        coord.x == 0 || coord.x == self.width - 1 || coord.y == 0 || coord.y == self.height - 1
    }

    /// The boundary openings among the cells with flat index below `n`,
    /// in row-major scan order.
    pub open spec fn openings_upto(self, n: int) -> Seq<Coord>
        decreases n,
    {
        if n <= 0 {
            Seq::empty()
        } else {
            let c = self.coord_at(n - 1);
            if self.opening(c) {
                self.openings_upto(n - 1).push(c)
            } else {
                self.openings_upto(n - 1)
            }
        }
    }

    /// All boundary openings, in row-major scan order (y outer, x inner).
    pub open spec fn openings(self) -> Seq<Coord> {
        self.openings_upto(self.grid().len() as int)
    }

    /// A position occurs in the scan's prefix exactly when it is an opening
    /// whose flat index lies below the prefix bound.
    pub proof fn lemma_openings_upto_membership(self, n: int, c: Coord)
        requires
            self.wf(),
            n <= self.grid().len(),
        ensures
            self.openings_upto(n).contains(c) <==> self.opening(c) && self.spec_idx(c) < n,
        decreases n,
    {
        self.lemma_idx_nonneg(c);
        if n <= 0 {
            assert(!self.openings_upto(n).contains(c));
        } else {
            self.lemma_openings_upto_membership(n - 1, c);
            let prev = self.openings_upto(n - 1);
            let cur = self.openings_upto(n);
            let cn = self.coord_at(n - 1);
            self.lemma_coord_at_idx(n - 1);
            if self.opening(c) {
                self.lemma_idx_in_range(c);
                self.lemma_idx_coord_at(c);
            }
            if self.opening(cn) {
                assert(cur == prev.push(cn));
                if cur.contains(c) {
                    let i = choose|i: int| 0 <= i < cur.len() && cur[i] == c;
                    if i < prev.len() {
                        assert(prev[i] == c);
                        assert(prev.contains(c));
                    } else {
                        assert(c == cn);
                    }
                }
                if self.opening(c) && self.spec_idx(c) < n {
                    if self.spec_idx(c) == n - 1 {
                        assert(cur[prev.len() as int] == c);
                        assert(cur.contains(c));
                    } else {
                        assert(prev.contains(c));
                        let i = choose|i: int| 0 <= i < prev.len() && prev[i] == c;
                        assert(cur[i] == c);
                        assert(cur.contains(c));
                    }
                }
            } else {
                assert(cur == prev);
            }
        }
    }

    /// Every listed opening is one, and the scan order is strictly
    /// increasing in the flat index.
    pub proof fn lemma_openings_upto_sorted(self, n: int)
        requires
            self.wf(),
            n <= self.grid().len(),
        ensures
            forall|i: int|
                0 <= i < self.openings_upto(n).len() ==> self.opening(
                    #[trigger] self.openings_upto(n)[i],
                ) && self.spec_idx(self.openings_upto(n)[i]) < n,
            forall|i: int, j: int|
                0 <= i < j < self.openings_upto(n).len() ==> self.spec_idx(
                    self.openings_upto(n)[i],
                ) < self.spec_idx(self.openings_upto(n)[j]),
        decreases n,
    {
        if n > 0 {
            self.lemma_openings_upto_sorted(n - 1);
            self.lemma_coord_at_idx(n - 1);
            let prev = self.openings_upto(n - 1);
            let cur = self.openings_upto(n);
            let cn = self.coord_at(n - 1);
            if self.opening(cn) {
                assert(cur == prev.push(cn));
                assert forall|i: int| 0 <= i < cur.len() implies self.opening(#[trigger] cur[i])
                    && self.spec_idx(cur[i]) < n by {
                    if i < prev.len() {
                        assert(cur[i] == prev[i]);
                    } else {
                        assert(cur[i] == cn);
                    }
                }
                assert forall|i: int, j: int| 0 <= i < j < cur.len() implies self.spec_idx(
                    cur[i],
                ) < self.spec_idx(cur[j]) by {
                    if j < prev.len() {
                        assert(cur[i] == prev[i] && cur[j] == prev[j]);
                    } else {
                        assert(cur[j] == cn);
                        assert(cur[i] == prev[i]);
                        assert(self.spec_idx(prev[i]) < n - 1);
                    }
                }
            } else {
                assert(cur == prev);
            }
        }
    }

    /// Collects every boundary opening by a row-major scan of the grid.
    /// The result is fully determined by the maze, so repeated calls
    /// return the same sequence in the same order.
    pub fn get_exits(&self) -> (r: Vec<Coord>)
        requires
            self.wf(),
        ensures
            r@ == self.openings(),
    {
        let mut exits: Vec<Coord> = Vec::new();
        let ghost w = self.width as int;
        let mut y: usize = 0;
        while y < self.height
            invariant
                self.wf(),
                w == self.width as int,
                y <= self.height,
                exits@ == self.openings_upto(y * w),
            decreases self.height - y,
        {
            let mut x: usize = 0;
            while x < self.width
                invariant
                    self.wf(),
                    w == self.width as int,
                    y < self.height,
                    x <= self.width,
                    exits@ == self.openings_upto(y * w + x),
                decreases self.width - x,
            {
                let coord = Coord { x, y };
                proof {
                    self.lemma_idx_in_range(coord);
                    self.lemma_idx_coord_at(coord);
                    assert(y as int * w >= 0) by (nonlinear_arith)
                        requires
                            y as int >= 0,
                            w >= 0,
                    ;
                }
                let mut open_cell = false;
                if self.is_edge(coord) {
                    match self.get(coord) {
                        Some(t) => {
                            if *t == Tile::Path {
                                open_cell = true;
                            }
                        },
                        None => {},
                    }
                }
                if open_cell {
                    exits.push(coord);
                }
                proof {
                    assert(open_cell == self.opening(coord));
                    assert(self.coord_at(y * w + x) == coord);
                    assert(exits@ == self.openings_upto(y * w + x + 1));
                }
                x = x + 1;
            }
            proof {
                assert(y * w + w == (y + 1) * w) by (nonlinear_arith);
            }
            y = y + 1;
        }
        proof {
            assert(self.height * w == self.grid().len()) by (nonlinear_arith)
                requires
                    self.grid().len() == self.width * self.height,
                    w == self.width as int,
            ;
        }
        exits
    }

    /// Boundary-opening detection is idempotent and order-stable: the
    /// contract of [`Maze::get_exits`] determines its result completely,
    /// so any two results for the same maze are the same sequence in the
    /// same order.
    pub proof fn lemma_openings_stable(self, r1: Seq<Coord>, r2: Seq<Coord>)
        requires
            self.wf(),
            r1 == self.openings(),
            r2 == self.openings(),
        ensures
            r1 == r2,
    {
    }

    /// Chooses the first two boundary openings of the row-major scan as the
    /// start and end of a search, or reports that fewer than two exist.
    pub fn endpoints(&self) -> (r: Result<(Coord, Coord), MazeError>)
        requires
            self.wf(),
        ensures
            r matches Ok(p) ==> self.openings().len() >= 2 && p.0 == self.openings()[0] && p.1
                == self.openings()[1],
            r is Ok <==> self.openings().len() >= 2,
            r matches Err(e) ==> e == MazeError::InsufficientOpenings,
    {
        let exits = self.get_exits();
        if exits.len() < 2 {
            Err(MazeError::InsufficientOpenings)
        } else {
            Ok((exits[0], exits[1]))
        }
    }

    /// Parses a maze from its text encoding. `'-'` is a passable tile and
    /// `'#'` a wall; spaces and carriage returns are stripped; each line is
    /// one row; blank lines at either end are ignored. Empty input, rows of
    /// differing widths, and any other character are malformed input, and
    /// exactly those inputs are rejected.
    #[verifier::rlimit(100)]
    pub fn read(text: &str) -> (r: Result<Maze, MazeError>)
        ensures
            r is Ok <==> rows_ok(rows_of(text@)),
            r matches Ok(m) ==> {
                &&& m.wf()
                &&& m.height == rows_of(text@).len()
                &&& m.width == rows_of(text@)[0].len()
                &&& forall|y: int, x: int|
                    0 <= y < m.height && 0 <= x < m.width ==> m.grid()[y * m.width + x]
                        == tile_of_char(#[trigger] rows_of(text@)[y][x])
            },
            r matches Err(e) ==> e == MazeError::MalformedInput,
    {
        let n = text.unicode_len();
        let mut rows: Vec<Vec<char>> = Vec::new();
        let ghost mut done: Seq<Seq<char>> = Seq::empty();
        let mut cur: Vec<char> = Vec::new();
        let mut i: usize = 0;
        proof {
            lemma_rows_raw_nonempty(text@);
            assert(text@.skip(0) =~= text@);
            assert(assemble(done, cur@, text@) =~= rows_raw(text@));
        }
        while i < n
            invariant
                n == text@.len(),
                i <= n,
                rows@.len() == done.len(),
                forall|j: int| 0 <= j < done.len() ==> #[trigger] done[j] == rows@[j]@,
                rows_raw(text@) == assemble(done, cur@, text@.skip(i as int)),
            decreases n - i,
        {
            let ghost rest = text@.skip(i as int);
            let ghost rest2 = text@.skip(i as int + 1);
            proof {
                lemma_rows_raw_nonempty(rest);
                lemma_rows_raw_nonempty(rest2);
                assert(rest.drop_first() =~= rest2);
                assert(rest[0] == text@[i as int]);
            }
            let c = text.get_char(i);
            if c == '\n' {
                proof {
                    assert(rows_raw(rest) == seq![Seq::<char>::empty()] + rows_raw(rest2));
                    assert((seq![Seq::<char>::empty()] + rows_raw(rest2)).drop_first()
                        =~= rows_raw(rest2));
                    assert(cur@ + rows_raw(rest)[0] =~= cur@);
                    assert(seq![rows_raw(rest2)[0]] + rows_raw(rest2).drop_first() =~= rows_raw(
                        rest2,
                    ));
                    assert(Seq::<char>::empty() + rows_raw(rest2)[0] =~= rows_raw(rest2)[0]);
                    assert(assemble(done, cur@, rest) =~= assemble(
                        done.push(cur@),
                        Seq::<char>::empty(),
                        rest2,
                    ));
                }
                rows.push(cur);
                proof {
                    done = done.push(cur@);
                }
                cur = Vec::new();
            } else if c == ' ' || c == '\r' {
                proof {
                    assert(rows_raw(rest) == rows_raw(rest2));
                }
            } else {
                proof {
                    assert(rows_raw(rest) == seq![seq![rest[0]] + rows_raw(rest2)[0]] + rows_raw(
                        rest2,
                    ).drop_first());
                    assert((seq![seq![rest[0]] + rows_raw(rest2)[0]] + rows_raw(
                        rest2,
                    ).drop_first()).drop_first() =~= rows_raw(rest2).drop_first());
                    assert(cur@ + (seq![rest[0]] + rows_raw(rest2)[0]) =~= cur@.push(rest[0])
                        + rows_raw(rest2)[0]);
                    assert(assemble(done, cur@, rest) =~= assemble(
                        done,
                        cur@.push(rest[0]),
                        rest2,
                    ));
                }
                cur.push(c);
            }
            i = i + 1;
        }
        proof {
            assert(text@.skip(n as int) =~= Seq::<char>::empty());
            assert(rows_raw(Seq::<char>::empty()) == seq![Seq::<char>::empty()]);
            assert(cur@ + Seq::<char>::empty() =~= cur@);
            assert(assemble(done, cur@, text@.skip(n as int)) =~= done.push(cur@));
        }
        rows.push(cur);
        let ghost all = done.push(cur@);
        let total = rows.len();
        let mut lo: usize = 0;
        while lo < total && rows[lo].len() == 0
            invariant
                total == rows@.len(),
                rows@.len() == all.len(),
                forall|j: int| 0 <= j < all.len() ==> #[trigger] all[j] == rows@[j]@,
                lo <= total,
                forall|j: int| 0 <= j < lo ==> (#[trigger] all[j]).len() == 0,
            decreases total - lo,
        {
            lo = lo + 1;
        }
        let mut hi: usize = total;
        while hi > lo && rows[hi - 1].len() == 0
            invariant
                total == rows@.len(),
                rows@.len() == all.len(),
                forall|j: int| 0 <= j < all.len() ==> #[trigger] all[j] == rows@[j]@,
                lo <= hi <= total,
                lo < total ==> all[lo as int].len() != 0,
                forall|j: int| hi <= j < all.len() ==> (#[trigger] all[j]).len() == 0,
            decreases hi,
        {
            hi = hi - 1;
        }
        proof {
            lemma_trim_leading_skip(all, lo as int);
            lemma_trim_trailing_take(all.skip(lo as int), hi - lo);
        }
        let ghost trimmed = rows_of(text@);
        proof {
            assert(trimmed == all.skip(lo as int).take(hi - lo));
            assert(trimmed.len() == hi - lo);
            assert(forall|j: int|
                0 <= j < trimmed.len() ==> #[trigger] trimmed[j] == all[lo + j]);
        }
        if hi == lo {
            return Err(MazeError::MalformedInput);
        }
        let width = rows[lo].len();
        let height = hi - lo;
        let mut data: Vec<Tile> = Vec::new();
        let mut y: usize = lo;
        while y < hi
            invariant
                total == rows@.len(),
                rows@.len() == all.len(),
                forall|j: int| 0 <= j < all.len() ==> #[trigger] all[j] == rows@[j]@,
                lo <= y <= hi <= total,
                lo < hi,
                width == all[lo as int].len(),
                width > 0,
                trimmed == rows_of(text@),
                trimmed.len() == hi - lo,
                forall|j: int| 0 <= j < trimmed.len() ==> #[trigger] trimmed[j] == all[lo + j],
                data@.len() == (y - lo) * width,
                forall|j: int| lo <= j < y ==> (#[trigger] all[j]).len() == width,
                forall|j: int, x: int|
                    lo <= j < y && 0 <= x < width ==> #[trigger] data@[(j - lo) * width + x]
                        == tile_of_char(all[j][x]),
                forall|j: int, x: int|
                    lo <= j < y && 0 <= x < width ==> is_tile_char(#[trigger] all[j][x]),
            decreases hi - y,
        {
            if rows[y].len() != width {
                proof {
                    assert(trimmed[y - lo].len() != trimmed[0].len());
                }
                return Err(MazeError::MalformedInput);
            }
            let mut x: usize = 0;
            while x < width
                invariant
                    total == rows@.len(),
                    rows@.len() == all.len(),
                    forall|j: int| 0 <= j < all.len() ==> #[trigger] all[j] == rows@[j]@,
                    lo <= y < hi <= total,
                    x <= width,
                    width == all[lo as int].len(),
                    width > 0,
                    all[y as int].len() == width,
                    trimmed == rows_of(text@),
                    trimmed.len() == hi - lo,
                    forall|j: int| 0 <= j < trimmed.len() ==> #[trigger] trimmed[j] == all[lo + j],
                    data@.len() == (y - lo) * width + x,
                    forall|j: int| lo <= j < y ==> (#[trigger] all[j]).len() == width,
                    forall|j: int, xx: int|
                        lo <= j < y && 0 <= xx < width ==> #[trigger] data@[(j - lo) * width + xx]
                            == tile_of_char(all[j][xx]),
                    forall|j: int, xx: int|
                        lo <= j < y && 0 <= xx < width ==> is_tile_char(#[trigger] all[j][xx]),
                    forall|xx: int|
                        0 <= xx < x ==> #[trigger] data@[(y - lo) * width + xx] == tile_of_char(
                            all[y as int][xx],
                        ),
                    forall|xx: int| 0 <= xx < x ==> is_tile_char(#[trigger] all[y as int][xx]),
                decreases width - x,
            {
                proof {
                    assert((y - lo) * width >= 0) by (nonlinear_arith)
                        requires
                            y as int >= lo as int,
                            width as int >= 0,
                    ;
                    assert((y - lo) * width + width <= (hi - lo) * width) by (nonlinear_arith)
                        requires
                            lo as int <= y as int,
                            (y as int) < (hi as int),
                            width as int >= 0,
                    ;
                }
                let c = rows[y][x];
                let t = if c == '-' {
                    Tile::Path
                } else if c == '#' {
                    Tile::Wall
                } else {
                    proof {
                        assert(!is_tile_char(trimmed[y - lo][x as int]));
                    }
                    return Err(MazeError::MalformedInput);
                };
                let ghost pre = data@;
                data.push(t);
                proof {
                    assert(t == tile_of_char(all[y as int][x as int]));
                    assert forall|j: int, xx: int|
                        lo <= j < y && 0 <= xx < width implies #[trigger] data@[(j - lo) * width
                        + xx] == tile_of_char(all[j][xx]) by {
                        assert(0 <= (j - lo) * width + xx && (j - lo) * width + xx < (y - lo)
                            * width) by (nonlinear_arith)
                            requires
                                lo as int <= j,
                                j < y as int,
                                0 <= xx,
                                xx < width as int,
                        ;
                        assert(data@[(j - lo) * width + xx] == pre[(j - lo) * width + xx]);
                    }
                }
                x = x + 1;
            }
            proof {
                assert((y - lo) * width + width == (y + 1 - lo) * width) by (nonlinear_arith);
                assert forall|j: int, xx: int| lo <= j < y + 1 && 0 <= xx < width implies #[trigger] data@[(j
                    - lo) * width + xx] == tile_of_char(all[j][xx]) by {
                    if j == y {
                        assert(data@[(y - lo) * width + xx] == tile_of_char(all[y as int][xx]));
                    }
                }
                assert forall|j: int, xx: int| lo <= j < y + 1 && 0 <= xx < width implies is_tile_char(
                    #[trigger] all[j][xx],
                ) by {
                    if j == y {
                        assert(is_tile_char(all[y as int][xx]));
                    }
                }
            }
            y = y + 1;
        }
        let m = Maze { width, height, data };
        proof {
            assert(m.grid().len() == (hi - lo) * width);
            assert((hi - lo) * width == width * height) by (nonlinear_arith)
                requires
                    height == hi - lo,
                    width >= 0,
            ;
            assert(m.wf());
            assert(trimmed[0] == all[lo as int]);
            assert forall|j: int| 0 <= j < trimmed.len() implies (#[trigger] trimmed[j]).len()
                == trimmed[0].len() by {
                assert(trimmed[j] == all[lo + j]);
            }
            assert forall|j: int, xx: int|
                0 <= j < trimmed.len() && 0 <= xx < trimmed[j].len() implies is_tile_char(
                #[trigger] trimmed[j][xx],
            ) by {
                assert(trimmed[j] == all[lo + j]);
                assert(all[lo + j].len() == width);
                assert(is_tile_char(all[lo + j][xx]));
            }
            assert(rows_ok(trimmed));
            assert forall|yy: int, xx: int|
                0 <= yy < m.height && 0 <= xx < m.width implies m.grid()[yy * m.width + xx]
                == tile_of_char(#[trigger] rows_of(text@)[yy][xx]) by {
                assert(trimmed[yy] == all[lo + yy]);
                assert(data@[((lo + yy) - lo) * width + xx] == tile_of_char(all[lo + yy][xx]));
                assert(((lo + yy) - lo) * width + xx == yy * m.width + xx);
            }
        }
        Ok(m)
    }

    /// The characters encoding row `y`, in column order.
    pub open spec fn row_chars(self, y: int) -> Seq<char> {
        Seq::new(self.width as nat, |x: int| char_of_tile(self.grid()[y * self.width + x]))
    }

    /// The text encoding from row `y` on: each row's characters followed
    /// by a newline.
    pub open spec fn text_from(self, y: int) -> Seq<char>
        decreases self.height - y,
    {
        if y < 0 || y >= self.height {
            Seq::empty()
        } else {
            self.row_chars(y) + seq!['\n'] + self.text_from(y + 1)
        }
    }

    /// The canonical text encoding of the maze: one line per row,
    /// `'-'` for a passable tile and `'#'` for a wall.
    pub open spec fn text_spec(self) -> Seq<char> {
        self.text_from(0)
    }

    /// Serializes the maze back into its text encoding.
    pub fn to_text(&self) -> (r: String)
        requires
            self.wf(),
        ensures
            r@ == self.text_spec(),
    {
        let mut s = String::new();
        let mut y: usize = 0;
        while y < self.height
            invariant
                self.wf(),
                y <= self.height,
                s@ + self.text_from(y as int) == self.text_spec(),
            decreases self.height - y,
        {
            proof {
                assert(self.text_from(y as int) =~= self.row_chars(y as int) + seq!['\n']
                    + self.text_from(y as int + 1));
                assert(self.row_chars(y as int).skip(0) =~= self.row_chars(y as int));
            }
            let mut x: usize = 0;
            while x < self.width
                invariant
                    self.wf(),
                    y < self.height,
                    x <= self.width,
                    s@ + self.row_chars(y as int).skip(x as int) + seq!['\n'] + self.text_from(
                        y as int + 1,
                    ) == self.text_spec(),
                decreases self.width - x,
            {
                let c = Coord { x, y };
                let t = self.idx(c);
                let ghost row = self.row_chars(y as int);
                match self.data[t] {
                    Tile::Path => {
                        proof {
                            reveal_strlit("-");
                        }
                        s.append("-");
                    },
                    Tile::Wall => {
                        proof {
                            reveal_strlit("#");
                        }
                        s.append("#");
                    },
                }
                proof {
                    assert(row[x as int] == char_of_tile(self.grid()[self.spec_idx(c)]));
                    assert(row.skip(x as int) =~= seq![row[x as int]] + row.skip(x as int + 1));
                    assert(s@ + row.skip(x as int + 1) + seq!['\n'] + self.text_from(y as int + 1)
                        == self.text_spec());
                }
                x = x + 1;
            }
            proof {
                reveal_strlit("\n");
                assert(self.row_chars(y as int).skip(self.width as int) =~= Seq::<char>::empty());
                assert(s@ + Seq::<char>::empty() =~= s@);
            }
            s.append("\n");
            y = y + 1;
        }
        proof {
            assert(self.text_from(self.height as int) =~= Seq::<char>::empty());
            assert(s@ + Seq::<char>::empty() =~= s@);
        }
        s
    }

    /// The text encoding from row `y` on splits back into exactly the rows
    /// from `y` on, followed by one final empty row from the trailing newline.
    pub proof fn lemma_text_rows(self, y: int)
        requires
            self.wf(),
            0 <= y <= self.height,
        ensures
            rows_raw(self.text_from(y)) == Seq::new(
                (self.height - y) as nat,
                |i: int| self.row_chars(y + i),
            ).push(Seq::<char>::empty()),
        decreases self.height - y,
    {
        if y == self.height {
            assert(self.text_from(y) =~= Seq::<char>::empty());
            assert(rows_raw(self.text_from(y)) =~= Seq::new(
                (self.height - y) as nat,
                |i: int| self.row_chars(y + i),
            ).push(Seq::<char>::empty()));
        } else {
            self.lemma_text_rows(y + 1);
            let row = self.row_chars(y);
            let rest = seq!['\n'] + self.text_from(y + 1);
            assert(self.text_from(y) =~= row + rest);
            assert forall|i: int| 0 <= i < row.len() implies !crate::text::is_sep(
                #[trigger] row[i],
            ) && row[i] != '\n' by {
                assert(row[i] == char_of_tile(self.grid()[y * self.width + i]));
            }
            lemma_rows_raw_prepend_row(row, rest);
            assert(rest[0] == '\n');
            assert(rest.drop_first() =~= self.text_from(y + 1));
            assert(rows_raw(rest) == seq![Seq::<char>::empty()] + rows_raw(self.text_from(y + 1)));
            assert(rows_raw(rest)[0] =~= Seq::<char>::empty());
            assert(rows_raw(rest).drop_first() =~= rows_raw(self.text_from(y + 1)));
            assert(row + rows_raw(rest)[0] =~= row);
            assert(rows_raw(self.text_from(y)) =~= seq![row] + rows_raw(self.text_from(y + 1)));
            assert(seq![row] + Seq::new(
                (self.height - y - 1) as nat,
                |i: int| self.row_chars(y + 1 + i),
            ).push(Seq::<char>::empty()) =~= Seq::new(
                (self.height - y) as nat,
                |i: int| self.row_chars(y + i),
            ).push(Seq::<char>::empty()));
        }
    }

    /// The tile grid round-trips through its text encoding: parsing the
    /// serialized form of a well-formed maze yields a well-formed row set
    /// of the same extents whose characters decode to exactly the same
    /// wall/path pattern.
    pub proof fn lemma_text_roundtrip(self)
        requires
            self.wf(),
        ensures
            rows_ok(rows_of(self.text_spec())),
            rows_of(self.text_spec()).len() == self.height,
            rows_of(self.text_spec())[0].len() == self.width,
            forall|y: int, x: int|
                0 <= y < self.height && 0 <= x < self.width ==> tile_of_char(
                    #[trigger] rows_of(self.text_spec())[y][x],
                ) == self.grid()[y * self.width + x],
    {
        self.lemma_text_rows(0);
        let h = self.height as int;
        let rowseq = Seq::new(self.height as nat, |i: int| self.row_chars(i));
        let raw = rows_raw(self.text_spec());
        assert(raw == rowseq.push(Seq::<char>::empty()));
        assert(raw[0].len() == self.width);
        lemma_trim_leading_skip(raw, 0);
        assert(raw.skip(0) =~= raw);
        lemma_trim_trailing_take(raw, h);
        assert(rows_of(self.text_spec()) == raw.take(h));
        assert(raw.take(h) =~= rowseq);
        assert forall|y: int, x: int|
            0 <= y < self.height && 0 <= x < self.width implies tile_of_char(
            #[trigger] rows_of(self.text_spec())[y][x],
        ) == self.grid()[y * self.width + x] by {
            assert(rows_of(self.text_spec())[y] == self.row_chars(y));
            assert(self.row_chars(y)[x] == char_of_tile(self.grid()[y * self.width + x]));
        }
        assert forall|y: int, x: int|
            0 <= y < rows_of(self.text_spec()).len() && 0 <= x < rows_of(
                self.text_spec(),
            )[y].len() implies is_tile_char(#[trigger] rows_of(self.text_spec())[y][x]) by {
            assert(rows_of(self.text_spec())[y] == self.row_chars(y));
            assert(self.row_chars(y)[x] == char_of_tile(self.grid()[y * self.width + x]));
        }
    }

    /// The traversable neighbours of a position, in the fixed cardinal
    /// order West, North, South, East. The order is part of the contract:
    /// it determines which of several equal-cost routes the unguided
    /// search returns.
    pub open spec fn neighbour_seq(self, c: Coord) -> Seq<Coord> {
        (if c.x > 0 && self.is_open(west_of(c)) {
            seq![west_of(c)]
        } else {
            Seq::<Coord>::empty()
        }) + (if c.y > 0 && self.is_open(north_of(c)) {
            seq![north_of(c)]
        } else {
            Seq::<Coord>::empty()
        }) + (if c.y + 1 < self.height && self.is_open(south_of(c)) {
            seq![south_of(c)]
        } else {
            Seq::<Coord>::empty()
        }) + (if c.x + 1 < self.width && self.is_open(east_of(c)) {
            seq![east_of(c)]
        } else {
            Seq::<Coord>::empty()
        })
    }

    /// Every listed neighbour is a traversable cell one cardinal step away.
    pub proof fn lemma_neighbours_sound(self, c: Coord)
        requires
            self.wf(),
            self.in_bounds(c),
        ensures
            forall|i: int|
                0 <= i < self.neighbour_seq(c).len() ==> adjacent(
                    c,
                    #[trigger] self.neighbour_seq(c)[i],
                ) && self.is_open(self.neighbour_seq(c)[i]),
    {
    }

    /// Every traversable cell one cardinal step away is listed.
    pub proof fn lemma_neighbours_complete(self, c: Coord, n: Coord)
        requires
            self.wf(),
            self.in_bounds(c),
            adjacent(c, n),
            self.is_open(n),
        ensures
            self.neighbour_seq(c).contains(n),
    {
        let s = self.neighbour_seq(c);
        let wl = if c.x > 0 && self.is_open(west_of(c)) {
            1int
        } else {
            0int
        };
        let nl = if c.y > 0 && self.is_open(north_of(c)) {
            1int
        } else {
            0int
        };
        let sl = if c.y + 1 < self.height && self.is_open(south_of(c)) {
            1int
        } else {
            0int
        };
        if n.x + 1 == c.x && n.y == c.y {
            assert(n == west_of(c));
            assert(s[0] == n);
        } else if n.y + 1 == c.y && n.x == c.x {
            assert(n == north_of(c));
            assert(s[wl] == n);
        } else if c.y + 1 == n.y && n.x == c.x {
            assert(n == south_of(c));
            assert(s[wl + nl] == n);
        } else {
            assert(c.x + 1 == n.x && n.y == c.y);
            assert(n == east_of(c));
            assert(s[wl + nl + sl] == n);
        }
    }

    /// Enumerates the traversable neighbours of a position, in the fixed
    /// order West, North, South, East. A step that would leave the grid is
    /// not generated, the position itself may lie anywhere without a panic,
    /// and the grid is never mutated.
    pub fn neighbours(&self, coord: Coord) -> (r: Vec<Coord>)
        requires
            self.wf(),
        ensures
            r@ == self.neighbour_seq(coord),
    {
        let mut r: Vec<Coord> = Vec::new();
        if coord.x > 0 {
            let n = Coord { x: coord.x - 1, y: coord.y };
            if self.is_path(n) {
                r.push(n);
            }
        }
        if coord.y > 0 {
            let n = Coord { x: coord.x, y: coord.y - 1 };
            if self.is_path(n) {
                r.push(n);
            }
        }
        if coord.y < self.height - 1 {
            let n = Coord { x: coord.x, y: coord.y + 1 };
            if self.is_path(n) {
                r.push(n);
            }
        }
        if coord.x < self.width - 1 {
            let n = Coord { x: coord.x + 1, y: coord.y };
            if self.is_path(n) {
                r.push(n);
            }
        }
        proof {
            assert(r@ =~= self.neighbour_seq(coord));
        }
        r
    }

    /// The cell is in bounds and traversable.
    fn is_path(&self, c: Coord) -> (r: bool)
        requires
            self.wf(),
        ensures
            r == self.is_open(c),
    {
        match self.get(c) {
            Some(t) => *t != Tile::Wall,
            None => false,
        }
    }

    /// Bounds-checked tile lookup: absent for out-of-bounds positions,
    /// otherwise the stored tile.
    pub fn get(&self, coord: Coord) -> (r: Option<&Tile>)
        requires
            self.wf(),
        ensures
            r matches Some(t) ==> self.in_bounds(coord) && *t == self.tile(coord),
            r is None <==> !self.in_bounds(coord),
    {
        if !self.is_inbounds(coord) {
            return None;
        }
        let index = self.idx(coord);
        Some(&self.data[index])
    }
}

} // verus!
