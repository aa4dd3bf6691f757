use vstd::prelude::*;

use crate::text;

verus! {

// ===== positions =====

/// A cell of the grid: a row index and a column index, both from zero.
/// Two points are equal exactly when both coordinates match.
#[derive(PartialEq, Eq, Structural, Clone, Copy, Debug)]
pub struct Point {
    pub row: usize,
    pub col: usize,
}

impl View for Point {
    type V = (int, int);

    open spec fn view(&self) -> (int, int) {
        (self.row as int, self.col as int)
    }
}

/// The coordinate pairs of a sequence of points.
pub open spec fn pts(s: Seq<Point>) -> Seq<(int, int)> {
    Seq::new(s.len(), |i: int| s[i]@)
}

/// Is `q` inside the box `[0, lim.0] x [0, lim.1]`?
pub open spec fn in_bounds(q: (int, int), lim: (int, int)) -> bool {
    0 <= q.0 <= lim.0 && 0 <= q.1 <= lim.1
}

// ===== the grid model =====

/// What a grid is mathematically: the protected cells, the consumable
/// cells, the agent's starting cell and the inclusive coordinate bounds.
#[verifier::ext_equal]
pub struct GridModel {
    pub safe: Set<(int, int)>,
    pub targets: Set<(int, int)>,
    pub start: (int, int),
    pub lim: (int, int),
}

impl GridModel {
    /// Every recorded cell lies inside the bounds, a cell is never both
    /// safe and target, and the start carries no marker of its own.
    pub open spec fn wf(self) -> bool {
        &&& in_bounds(self.start, self.lim)
        &&& forall|q: (int, int)| self.safe.contains(q) ==> in_bounds(q, self.lim)
        &&& forall|q: (int, int)| self.targets.contains(q) ==> in_bounds(q, self.lim)
        &&& forall|q: (int, int)| !(self.safe.contains(q) && self.targets.contains(q))
        &&& !self.safe.contains(self.start)
        &&& !self.targets.contains(self.start)
    }

    /// A target that no safe marker protects.  With safe and target cells
    /// mutually exclusive this is simply membership in `targets`.
    pub open spec fn can_capture(self, q: (int, int)) -> bool {
        self.targets.contains(q) && !self.safe.contains(q)
    }
}

// ===== the grid =====

/// An immutable spatial index: which cells are safe, which are targets,
/// where the agent starts, and the grid's inclusive bounds.
pub struct Grid {
    safe: Vec<Point>,
    targets: Vec<Point>,
    limits: Point,
    dragon: Point,
}

impl View for Grid {
    type V = GridModel;

    closed spec fn view(&self) -> GridModel {
        GridModel {
            safe: pts(self.safe@).to_set(),
            targets: pts(self.targets@).to_set(),
            start: self.dragon@,
            lim: self.limits@,
        }
    }
}

/// Does the vector hold this point?
fn contains_point(v: &Vec<Point>, p: &Point) -> (r: bool)
    ensures
        r == pts(v@).to_set().contains(p@),
{
    let n = v.len();
    let mut i: usize = 0;
    while i < n
        invariant
            n == v@.len(),
            0 <= i <= n,
            forall|k: int| 0 <= k < i ==> pts(v@)[k] != p@,
        decreases n - i,
    {
        if v[i].row == p.row && v[i].col == p.col {
            proof {
                assert(pts(v@)[i as int] == p@);
                assert(pts(v@).contains(p@));
            }
            return true;
        }
        i += 1;
    }
    proof {
        if pts(v@).to_set().contains(p@) {
            assert(pts(v@).contains(p@));
            let k = choose|k: int| 0 <= k < pts(v@).len() && pts(v@)[k] == p@;
            assert(false);
        }
    }
    false
}

impl Grid {
    /// Is `pos` recorded as a target cell?
    pub fn has_sheep(&self, pos: &Point) -> (r: bool)
        ensures
            r == self@.targets.contains(pos@),
    {
        contains_point(&self.targets, pos)
    }

    /// Is `pos` recorded as a safe (protected) cell?
    pub fn has_safe_space(&self, pos: &Point) -> (r: bool)
        ensures
            r == self@.safe.contains(pos@),
    {
        contains_point(&self.safe, pos)
    }

    /// May a target at `pos` be consumed: a target and not protected.
    pub fn can_eat_sheep(&self, pos: &Point) -> (r: bool)
        ensures
            r == self@.can_capture(pos@),
    {
        self.has_sheep(pos) && !self.has_safe_space(pos)
    }

    /// The grid's inclusive bounds.
    pub fn limits(&self) -> (r: Point)
        ensures
            r@ == self@.lim,
    {
        self.limits
    }

    /// The agent's starting cell.
    pub fn start(&self) -> (r: Point)
        ensures
            r@ == self@.start,
    {
        self.dragon
    }
}

// ===== parsing =====

/// Lexicographic (row-major) order on cells.
pub open spec fn lex_lt(a: (int, int), b: (int, int)) -> bool {
    a.0 < b.0 || (a.0 == b.0 && a.1 < b.1)
}

/// Does the marker `m` stand at cell `q` of the grid text?
pub open spec fn cell_is(lines: Seq<Seq<char>>, q: (int, int), m: char) -> bool {
    0 <= q.0 < lines.len() && 0 <= q.1 < lines[q.0].len() && lines[q.0][q.1] == m
}

/// All cells of the grid text that carry the marker `m`.
pub open spec fn marker_cells(lines: Seq<Seq<char>>, m: char) -> Set<(int, int)> {
    Set::new(|q: (int, int)| cell_is(lines, q, m))
}

/// The marker cells strictly before the row-major boundary `b`.
pub open spec fn marker_cells_before(lines: Seq<Seq<char>>, m: char, b: (int, int)) -> Set<
    (int, int),
> {
    Set::new(|q: (int, int)| cell_is(lines, q, m) && lex_lt(q, b))
}

/// Is `q` the first agent marker in row-major order?
pub open spec fn is_first_dragon(lines: Seq<Seq<char>>, q: (int, int)) -> bool {
    cell_is(lines, q, 'D') && forall|q2: (int, int)| lex_lt(q2, q) ==> !cell_is(lines, q2, 'D')
}

/// Every cell of the grid text carries one of the four known markers.
pub open spec fn good_cells(lines: Seq<Seq<char>>) -> bool {
    forall|q: (int, int)|
        (0 <= q.0 < lines.len() && 0 <= q.1 < lines[q.0].len()) ==> (#[trigger] lines[q.0][q.1]
            == 'D' || lines[q.0][q.1] == 'S' || lines[q.0][q.1] == '#' || lines[q.0][q.1] == '.')
}

/// A well-formed grid text: known markers only, and an agent somewhere.
pub open spec fn good_text(s: Seq<char>) -> bool {
    let lines = text::lines_spec(s);
    good_cells(lines) && exists|q: (int, int)| cell_is(lines, q, 'D')
}

/// The largest row index whose line holds at least one cell.
pub open spec fn max_row_of(lines: Seq<Seq<char>>) -> int
    decreases lines.len(),
{
    if lines.len() == 0 {
        -1
    } else if lines.last().len() > 0 {
        lines.len() - 1
    } else {
        max_row_of(lines.drop_last())
    }
}

/// The largest column index any line reaches.
pub open spec fn max_col_of(lines: Seq<Seq<char>>) -> int
    decreases lines.len(),
{
    if lines.len() == 0 {
        -1
    } else if max_col_of(lines.drop_last()) >= lines.last().len() - 1 {
        max_col_of(lines.drop_last())
    } else {
        lines.last().len() - 1
    }
}

/// The grid that a well-formed text denotes.
pub open spec fn text_model(s: Seq<char>) -> GridModel {
    let lines = text::lines_spec(s);
    GridModel {
        safe: marker_cells(lines, '#'),
        targets: marker_cells(lines, 'S'),
        start: choose|q: (int, int)| is_first_dragon(lines, q),
        lim: (max_row_of(lines), max_col_of(lines)),
    }
}

proof fn lemma_max_row_char(lines: Seq<Seq<char>>, r: int)
    requires
        0 <= r < lines.len(),
        lines[r].len() > 0,
        forall|k: int| r < k < lines.len() ==> lines[k].len() == 0,
    ensures
        max_row_of(lines) == r,
    decreases lines.len(),
{
    if lines.len() - 1 > r {
        assert(lines.last().len() == 0);
        assert(forall|k: int| r < k < lines.len() - 1 ==> lines.drop_last()[k].len() == 0);
        assert(lines.drop_last()[r] == lines[r]);
        lemma_max_row_char(lines.drop_last(), r);
    }
}

proof fn lemma_max_col_char(lines: Seq<Seq<char>>, c: int)
    requires
        exists|k: int| 0 <= k < lines.len() && #[trigger] lines[k].len() == c + 1,
        forall|k: int| 0 <= k < lines.len() ==> #[trigger] lines[k].len() <= c + 1,
        c >= 0,
    ensures
        max_col_of(lines) == c,
    decreases lines.len(),
{
    let w = choose|k: int| 0 <= k < lines.len() && #[trigger] lines[k].len() == c + 1;
    assert(forall|k: int| 0 <= k < lines.len() - 1 ==> #[trigger] lines.drop_last()[k]
        == lines[k]);
    if w == lines.len() - 1 {
        assert(lines.last().len() == c + 1);
        lemma_max_col_le(lines.drop_last(), c);
    } else {
        assert(lines.drop_last()[w] == lines[w]);
        lemma_max_col_char(lines.drop_last(), c);
    }
}

proof fn lemma_max_col_le(lines: Seq<Seq<char>>, c: int)
    requires
        c >= -1,
        forall|k: int| 0 <= k < lines.len() ==> #[trigger] lines[k].len() <= c + 1,
    ensures
        max_col_of(lines) <= c,
    decreases lines.len(),
{
    if lines.len() > 0 {
        assert(forall|k: int| 0 <= k < lines.len() - 1 ==> #[trigger] lines.drop_last()[k]
            == lines[k]);
        lemma_max_col_le(lines.drop_last(), c);
        assert(lines.last().len() <= c + 1);
    }
}

/// Every cell's column stays within `max_col_of`, and its row within
/// `max_row_of`.
proof fn lemma_cell_within(lines: Seq<Seq<char>>, q: (int, int))
    requires
        0 <= q.0 < lines.len(),
        0 <= q.1 < lines[q.0].len(),
    ensures
        q.0 <= max_row_of(lines),
        q.1 <= max_col_of(lines),
    decreases lines.len(),
{
    if q.0 == lines.len() - 1 {
        assert(lines.last().len() > 0);
        assert(max_col_of(lines) >= lines.last().len() - 1);
    } else {
        assert(lines.drop_last()[q.0] == lines[q.0]);
        lemma_cell_within(lines.drop_last(), q);
        assert(max_row_of(lines) >= max_row_of(lines.drop_last())) by {
            if lines.last().len() > 0 {
                lemma_max_row_ub(lines.drop_last());
            }
        }
        assert(max_col_of(lines) >= max_col_of(lines.drop_last()));
    }
}

proof fn lemma_max_row_ub(lines: Seq<Seq<char>>)
    ensures
        max_row_of(lines) <= lines.len() - 1,
    decreases lines.len(),
{
    if lines.len() > 0 {
        lemma_max_row_ub(lines.drop_last());
    }
}

impl Grid {
    /// Builds the spatial index from the grid text: one character per
    /// cell, `'D'` the agent, `'S'` a target, `'#'` a safe cell, `'.'`
    /// empty.  `None` when an unknown marker occurs or no agent is found.
    pub fn parse(input: &str) -> (r: Option<Grid>)
        ensures
            r is Some <==> good_text(input@),
            r is Some ==> (r->0)@ == text_model(input@) && (r->0)@.wf(),
    {
        let v = text::chars_of(input);
        let lines = text::lines_vecs(&v);
        let ghost ls = text::lines_spec(input@);
        let nrows = lines.len();
        let mut safe: Vec<Point> = Vec::new();
        let mut targets: Vec<Point> = Vec::new();
        let mut dragon: Option<Point> = None;
        let mut any: bool = false;
        let mut max_row: usize = 0;
        let mut max_col: usize = 0;
        let mut i: usize = 0;
        while i < nrows
            invariant
                ls == text::lines_spec(input@),
                lines.deep_view() == ls,
                nrows == lines@.len(),
                0 <= i <= nrows,
                pts(safe@).to_set() == marker_cells_before(ls, '#', (i as int, 0)),
                pts(targets@).to_set() == marker_cells_before(ls, 'S', (i as int, 0)),
                match dragon {
                    Option::None => forall|q: (int, int)|
                        q.0 < i ==> !cell_is(ls, q, 'D'),
                    Option::Some(p) => is_first_dragon(ls, p@) && p@.0 < i,
                },
                forall|q: (int, int)|
                    (0 <= q.0 < i && 0 <= q.1 < ls[q.0].len()) ==> (#[trigger] ls[q.0][q.1] == 'D'
                        || ls[q.0][q.1] == 'S' || ls[q.0][q.1] == '#' || ls[q.0][q.1] == '.'),
                any == exists|k: int| 0 <= k < i && #[trigger] ls[k].len() > 0,
                any ==> max_row < i && ls[max_row as int].len() > 0 && forall|k: int|
                    max_row < k < i ==> ls[k].len() == 0,
                any ==> (exists|k: int|
                    0 <= k < i && #[trigger] ls[k].len() == max_col + 1) && forall|k: int|
                    0 <= k < i ==> #[trigger] ls[k].len() <= max_col + 1,
            decreases nrows - i,
        {
            let line = &lines[i];
            let cols = line.len();
            proof {
                assert(lines.deep_view()[i as int] == lines@[i as int].deep_view());
                assert(lines@[i as int].deep_view() =~= line@);
                assert(ls[i as int] == line@);
            }
            let mut j: usize = 0;
            while j < cols
                invariant
                    ls == text::lines_spec(input@),
                    lines.deep_view() == ls,
                    nrows == lines@.len(),
                    0 <= i < nrows,
                    cols == ls[i as int].len(),
                    0 <= j <= cols,
                    line@ == ls[i as int],
                    pts(safe@).to_set() == marker_cells_before(ls, '#', (i as int, j as int)),
                    pts(targets@).to_set() == marker_cells_before(ls, 'S', (i as int, j as int)),
                    match dragon {
                        Option::None => forall|q: (int, int)|
                            lex_lt(q, (i as int, j as int)) ==> !cell_is(ls, q, 'D'),
                        Option::Some(p) => is_first_dragon(ls, p@) && lex_lt(
                            p@,
                            (i as int, j as int),
                        ),
                    },
                    forall|q: (int, int)|
                        ((0 <= q.0 < i && 0 <= q.1 < ls[q.0].len()) || (q.0 == i && 0 <= q.1 < j))
                            ==> (#[trigger] ls[q.0][q.1] == 'D' || ls[q.0][q.1] == 'S'
                            || ls[q.0][q.1] == '#' || ls[q.0][q.1] == '.'),
                decreases cols - j,
            {
                let c = line[j];
                let ghost qc = (i as int, j as int);
                proof {
                    assert(ls[i as int][j as int] == c);
                }
                if c == 'D' {
                    if dragon.is_none() {
                        dragon = Some(Point { row: i, col: j });
                    }
                } else if c == 'S' {
                    let ghost tseq = pts(targets@);
                    let ghost t0 = tseq.to_set();
                    targets.push(Point { row: i, col: j });
                    proof {
                        assert(pts(targets@) =~= tseq.push(qc));
                        tseq.lemma_push_to_set_commute(qc);
                        assert(pts(targets@).to_set() =~= t0.insert(qc));
                    }
                } else if c == '#' {
                    let ghost sseq = pts(safe@);
                    let ghost s0 = sseq.to_set();
                    safe.push(Point { row: i, col: j });
                    proof {
                        assert(pts(safe@) =~= sseq.push(qc));
                        sseq.lemma_push_to_set_commute(qc);
                        assert(pts(safe@).to_set() =~= s0.insert(qc));
                    }
                } else if c != '.' {
                    proof {
                        assert(cell_is(ls, qc, ls[i as int][j as int]));
                        assert(!good_cells(ls));
                    }
                    return None;
                }
                proof {
                    assert forall|q: (int, int)| lex_lt(q, (i as int, j + 1 as int)) implies (
                    lex_lt(q, (i as int, j as int)) || q == qc) by {}
                    assert(marker_cells_before(ls, '#', (i as int, j + 1 as int))
                        =~= marker_cells_before(ls, '#', (i as int, j as int)).union(
                        if cell_is(ls, qc, '#') {
                            Set::empty().insert(qc)
                        } else {
                            Set::empty()
                        },
                    ));
                    assert(marker_cells_before(ls, 'S', (i as int, j + 1 as int))
                        =~= marker_cells_before(ls, 'S', (i as int, j as int)).union(
                        if cell_is(ls, qc, 'S') {
                            Set::empty().insert(qc)
                        } else {
                            Set::empty()
                        },
                    ));
                    assert(pts(safe@).to_set() =~= marker_cells_before(
                        ls,
                        '#',
                        (i as int, j + 1 as int),
                    ));
                    assert(pts(targets@).to_set() =~= marker_cells_before(
                        ls,
                        'S',
                        (i as int, j + 1 as int),
                    ));
                }
                j += 1;
            }
            if cols > 0 {
                max_row = i;
                if !any || cols - 1 > max_col {
                    max_col = cols - 1;
                }
                any = true;
            }
            proof {
                assert forall|q: (int, int)|
                    cell_is(ls, q, '#') && lex_lt(q, (i + 1 as int, 0)) implies lex_lt(
                    q,
                    (i as int, cols as int),
                ) by {
                    if q.0 == i {
                        assert(ls[i as int].len() == cols);
                    }
                }
                assert forall|q: (int, int)|
                    cell_is(ls, q, 'S') && lex_lt(q, (i + 1 as int, 0)) implies lex_lt(
                    q,
                    (i as int, cols as int),
                ) by {
                    if q.0 == i {
                        assert(ls[i as int].len() == cols);
                    }
                }
                assert(pts(safe@).to_set() =~= marker_cells_before(
                    ls,
                    '#',
                    (i + 1 as int, 0),
                ));
                assert(pts(targets@).to_set() =~= marker_cells_before(
                    ls,
                    'S',
                    (i + 1 as int, 0),
                ));
            }
            i += 1;
        }
        let d = match dragon {
            Some(d) => d,
            None => {
                proof {
                    if good_text(input@) {
                        let q = choose|q: (int, int)| cell_is(ls, q, 'D');
                        assert(q.0 < nrows);
                        assert(false);
                    }
                }
                return None;
            },
        };
        proof {
            assert(cell_is(ls, d@, 'D'));
            assert(ls[d@.0].len() > 0);
            assert(any);
            assert(good_cells(ls)) by {
                assert(forall|q: (int, int)|
                    (0 <= q.0 < ls.len() && 0 <= q.1 < ls[q.0].len()) ==> (#[trigger] ls[q.0][q.1]
                        == 'D' || ls[q.0][q.1] == 'S' || ls[q.0][q.1] == '#' || ls[q.0][q.1]
                        == '.'));
            }
            assert(good_text(input@));
        }
        let g = Grid {
            safe,
            targets,
            limits: Point { row: max_row, col: max_col },
            dragon: d,
        };
        proof {
            lemma_max_row_char(ls, max_row as int);
            lemma_max_col_char(ls, max_col as int);
            assert(g@.safe =~= marker_cells(ls, '#'));
            assert(g@.targets =~= marker_cells(ls, 'S'));
            assert(g@.start == d@);
            let fd = choose|q: (int, int)| is_first_dragon(ls, q);
            assert(is_first_dragon(ls, d@));
            assert(fd == d@) by {
                if fd != d@ {
                    assert(is_first_dragon(ls, fd));
                    assert(lex_lt(fd, d@) || lex_lt(d@, fd));
                    assert(false);
                }
            }
            assert(g@ =~= text_model(input@));
            // well-formedness
            assert forall|q: (int, int)| g@.safe.contains(q) implies in_bounds(q, g@.lim) by {
                lemma_cell_within(ls, q);
            }
            assert forall|q: (int, int)| g@.targets.contains(q) implies in_bounds(q, g@.lim) by {
                lemma_cell_within(ls, q);
            }
            assert(in_bounds(g@.start, g@.lim)) by {
                lemma_cell_within(ls, d@);
            }
            assert(g@.wf());
        }
        Some(g)
    }
}

// ===== knight moves =====

/// A singleton of `q` when it lies inside the bounds, else nothing.
pub open spec fn opt_dest(q: (int, int), lim: (int, int)) -> Seq<(int, int)> {
    if in_bounds(q, lim) {
        seq![q]
    } else {
        Seq::empty()
    }
}

/// The knight-move destinations from `p` that stay inside the bounds, in
/// the fixed order of the offset table.
pub open spec fn knight_seq(p: (int, int), lim: (int, int)) -> Seq<(int, int)> {
    opt_dest((p.0 - 1, p.1 - 2), lim) + opt_dest((p.0 - 1, p.1 + 2), lim) + opt_dest(
        (p.0 + 1, p.1 - 2),
        lim,
    ) + opt_dest((p.0 + 1, p.1 + 2), lim) + opt_dest((p.0 + 2, p.1 - 1), lim) + opt_dest(
        (p.0 + 2, p.1 + 1),
        lim,
    ) + opt_dest((p.0 - 2, p.1 + 1), lim) + opt_dest((p.0 - 2, p.1 - 1), lim)
}

/// The same destinations as a set.
pub open spec fn knight_moves(p: (int, int), lim: (int, int)) -> Set<(int, int)> {
    knight_seq(p, lim).to_set()
}

/// Every knight destination stays inside the box, and there are at most
/// eight of them.
pub proof fn lemma_knight_moves_bounded(p: (int, int), lim: (int, int))
    ensures
        forall|q: (int, int)| knight_moves(p, lim).contains(q) ==> in_bounds(q, lim),
        knight_seq(p, lim).len() <= 8,
{
    assert forall|q: (int, int)| knight_moves(p, lim).contains(q) implies in_bounds(q, lim) by {
        assert(knight_seq(p, lim).contains(q));
        let i = choose|i: int| 0 <= i < knight_seq(p, lim).len() && knight_seq(p, lim)[i] == q;
    }
}

impl Grid {
    /// The knight-move destinations from `pos` that remain on the grid,
    /// in the fixed order of the offset table, without duplicates.
    #[verifier::rlimit(60)]
    pub fn next_moves(&self, pos: &Point) -> (r: Vec<Point>)
        ensures
            pts(r@) == knight_seq(pos@, self@.lim),
            pts(r@).to_set() == knight_moves(pos@, self@.lim),
            r@.len() <= 8,
    {
        let mr = self.limits.row;
        let mc = self.limits.col;
        let row = pos.row;
        let col = pos.col;
        let mut r: Vec<Point> = Vec::new();
        let ghost lim = self@.lim;
        let ghost p = pos@;
        // (-1, -2)
        if row >= 1 && col >= 2 && row - 1 <= mr && col - 2 <= mc {
            r.push(Point { row: row - 1, col: col - 2 });
        }
        proof {
            assert(pts(r@) =~= opt_dest((p.0 - 1, p.1 - 2), lim));
        }
        let ghost s1 = pts(r@);
        // (-1, +2)
        if row >= 1 && mc >= 2 && col <= mc - 2 && row - 1 <= mr {
            r.push(Point { row: row - 1, col: col + 2 });
        }
        proof {
            assert(pts(r@) =~= s1 + opt_dest((p.0 - 1, p.1 + 2), lim));
        }
        let ghost s2 = pts(r@);
        // (+1, -2)
        if col >= 2 && mr >= 1 && row <= mr - 1 && col - 2 <= mc {
            r.push(Point { row: row + 1, col: col - 2 });
        }
        proof {
            assert(pts(r@) =~= s2 + opt_dest((p.0 + 1, p.1 - 2), lim));
        }
        let ghost s3 = pts(r@);
        // (+1, +2)
        if mr >= 1 && row <= mr - 1 && mc >= 2 && col <= mc - 2 {
            r.push(Point { row: row + 1, col: col + 2 });
        }
        proof {
            assert(pts(r@) =~= s3 + opt_dest((p.0 + 1, p.1 + 2), lim));
        }
        let ghost s4 = pts(r@);
        // (+2, -1)
        if col >= 1 && mr >= 2 && row <= mr - 2 && col - 1 <= mc {
            r.push(Point { row: row + 2, col: col - 1 });
        }
        proof {
            assert(pts(r@) =~= s4 + opt_dest((p.0 + 2, p.1 - 1), lim));
        }
        let ghost s5 = pts(r@);
        // (+2, +1)
        if mr >= 2 && row <= mr - 2 && mc >= 1 && col <= mc - 1 {
            r.push(Point { row: row + 2, col: col + 1 });
        }
        proof {
            assert(pts(r@) =~= s5 + opt_dest((p.0 + 2, p.1 + 1), lim));
        }
        let ghost s6 = pts(r@);
        // (-2, +1)
        if row >= 2 && mc >= 1 && col <= mc - 1 && row - 2 <= mr {
            r.push(Point { row: row - 2, col: col + 1 });
        }
        proof {
            assert(pts(r@) =~= s6 + opt_dest((p.0 - 2, p.1 + 1), lim));
        }
        let ghost s7 = pts(r@);
        // (-2, -1)
        if row >= 2 && col >= 1 && row - 2 <= mr && col - 1 <= mc {
            r.push(Point { row: row - 2, col: col - 1 });
        }
        proof {
            assert(pts(r@) =~= s7 + opt_dest((p.0 - 2, p.1 - 1), lim));
            assert(pts(r@) =~= knight_seq(p, lim));
            lemma_knight_moves_bounded(p, lim);
        }
        r
    }
}


// ===== the frontier search =====

/// All cells one knight move away from some cell of `f`.
pub open spec fn step_set(m: GridModel, f: Set<(int, int)>) -> Set<(int, int)> {
    Set::new(
        |q: (int, int)|
            exists|p: (int, int)| #[trigger] f.contains(p) && knight_moves(p, m.lim).contains(q),
    )
}

/// The cells the agent can occupy after exactly `k` moves.
pub open spec fn frontier_at(m: GridModel, k: int) -> Set<(int, int)>
    decreases k,
    when k >= 0
{
    if k <= 0 {
        Set::empty().insert(m.start)
    } else {
        step_set(m, frontier_at(m, k - 1))
    }
}

/// The capturable cells of a frontier: unprotected targets.
pub open spec fn caps_of(m: GridModel, f: Set<(int, int)>) -> Set<(int, int)> {
    Set::new(|q: (int, int)| f.contains(q) && m.can_capture(q))
}

/// Everything the immediate-capture rule has consumed after the rounds
/// `0, 1, ..., k` were each checked on entry.
pub open spec fn captured_simple_upto(m: GridModel, k: int) -> Set<(int, int)>
    decreases k,
    when k >= 0
{
    if k <= 0 {
        caps_of(m, frontier_at(m, 0))
    } else {
        captured_simple_upto(m, k - 1).union(caps_of(m, frontier_at(m, k)))
    }
}

/// What the immediate-capture rule has consumed before round `k` starts.
pub open spec fn captured_simple_before(m: GridModel, k: int) -> Set<(int, int)> {
    if k <= 0 {
        Set::empty()
    } else {
        captured_simple_upto(m, k - 1)
    }
}

/// The windowed rule's捕 candidates of one frontier at round `k`: for every
/// unprotected frontier cell `p`, the two row-shifted cells `(p.0 - k, p.1)`
/// and `(p.0 - k + 1, p.1)`, kept only when they are target cells.
pub open spec fn wcaps_of(m: GridModel, f: Set<(int, int)>, k: int) -> Set<(int, int)> {
    Set::new(
        |t: (int, int)|
            m.targets.contains(t) && exists|p: (int, int)|
                #[trigger] f.contains(p) && !m.safe.contains(p) && (t == (p.0 - k, p.1) || t == (
                p.0 - k + 1,
                p.1,
            )),
    )
}

/// Everything the windowed rule has consumed after rounds `0, ..., k`.
pub open spec fn captured_windowed_upto(m: GridModel, k: int) -> Set<(int, int)>
    decreases k,
    when k >= 0
{
    if k <= 0 {
        wcaps_of(m, frontier_at(m, 0), 0)
    } else {
        captured_windowed_upto(m, k - 1).union(wcaps_of(m, frontier_at(m, k), k))
    }
}

/// What the windowed rule has consumed before round `k` starts.
pub open spec fn captured_windowed_before(m: GridModel, k: int) -> Set<(int, int)> {
    if k <= 0 {
        Set::empty()
    } else {
        captured_windowed_upto(m, k - 1)
    }
}

/// Appends `p` unless it is already present.
fn insert_new(v: &mut Vec<Point>, p: Point)
    requires
        pts(old(v)@).no_duplicates(),
    ensures
        pts(final(v)@).no_duplicates(),
        pts(final(v)@).to_set() == pts(old(v)@).to_set().insert(p@),
{
    let ghost vs = pts(v@);
    if !contains_point(v, &p) {
        v.push(p);
        proof {
            assert(pts(v@) =~= vs.push(p@));
            vs.lemma_push_to_set_commute(p@);
            assert(!vs.contains(p@));
            assert(pts(v@).no_duplicates()) by {
                assert(forall|k: int| 0 <= k < vs.len() ==> pts(v@)[k] == vs[k]);
                assert(pts(v@)[vs.len() as int] == p@);
            }
        }
    } else {
        proof {
            assert(pts(v@).to_set() =~= vs.to_set().insert(p@));
        }
    }
}

/// One pass of the immediate rule over a frontier: every unprotected
/// target in it joins the captured set.
fn add_captures_simple(grid: &Grid, frontier: &Vec<Point>, captured: &mut Vec<Point>)
    requires
        pts(old(captured)@).no_duplicates(),
    ensures
        pts(final(captured)@).no_duplicates(),
        pts(final(captured)@).to_set() == pts(old(captured)@).to_set().union(
            caps_of(grid@, pts(frontier@).to_set()),
        ),
{
    let ghost m = grid@;
    let ghost c0 = pts(old(captured)@).to_set();
    let n = frontier.len();
    let mut i: usize = 0;
    while i < n
        invariant
            m == grid@,
            n == frontier@.len(),
            0 <= i <= n,
            pts(captured@).no_duplicates(),
            pts(captured@).to_set() == c0.union(
                caps_of(m, pts(frontier@).take(i as int).to_set()),
            ),
        decreases n - i,
    {
        let p = frontier[i];
        let ghost pre = pts(frontier@).take(i as int).to_set();
        let ghost cpre = pts(captured@).to_set();
        if grid.can_eat_sheep(&p) {
            insert_new(captured, p);
        }
        proof {
            assert(pts(frontier@).take(i + 1 as int) =~= pts(frontier@).take(i as int).push(
                frontier@[i as int]@,
            ));
            pts(frontier@).take(i as int).lemma_push_to_set_commute(frontier@[i as int]@);
            assert(pts(frontier@).take(i + 1 as int).to_set() =~= pre.insert(p@));
            assert(caps_of(m, pre.insert(p@)) =~= if m.can_capture(p@) {
                caps_of(m, pre).insert(p@)
            } else {
                caps_of(m, pre)
            });
            assert(pts(captured@).to_set() =~= c0.union(
                caps_of(m, pts(frontier@).take(i + 1 as int).to_set()),
            ));
        }
        i += 1;
    }
    proof {
        assert(pts(frontier@).take(n as int) =~= pts(frontier@));
    }
}

/// Every recorded target cell has machine-representable coordinates.
proof fn lemma_target_repr(g: &Grid)
    ensures
        forall|t: (int, int)| #[trigger] g@.targets.contains(t) ==> 0 <= t.0 <= usize::MAX && 0
            <= t.1 <= usize::MAX,
{
    assert forall|t: (int, int)| #[trigger] g@.targets.contains(t) implies 0 <= t.0 <= usize::MAX
        && 0 <= t.1 <= usize::MAX by {
        assert(pts(g.targets@).contains(t));
        let k = choose|k: int| 0 <= k < pts(g.targets@).len() && pts(g.targets@)[k] == t;
        assert(pts(g.targets@)[k] == g.targets@[k]@);
    }
}

/// One pass of the windowed rule over a frontier at round `k`: for each
/// unprotected frontier cell, its two trailing candidates join the
/// captured set when they are targets.
fn add_captures_windowed(grid: &Grid, frontier: &Vec<Point>, k: u32, captured: &mut Vec<Point>)
    requires
        pts(old(captured)@).no_duplicates(),
    ensures
        pts(final(captured)@).no_duplicates(),
        pts(final(captured)@).to_set() == pts(old(captured)@).to_set().union(
            wcaps_of(grid@, pts(frontier@).to_set(), k as int),
        ),
{
    let ghost m = grid@;
    let ghost c0 = pts(old(captured)@).to_set();
    let n = frontier.len();
    let ku = k as usize;
    proof {
        lemma_target_repr(grid);
    }
    let mut i: usize = 0;
    while i < n
        invariant
            m == grid@,
            ku == k as usize,
            n == frontier@.len(),
            0 <= i <= n,
            forall|t: (int, int)| #[trigger] m.targets.contains(t) ==> 0 <= t.0 <= usize::MAX && 0
                <= t.1 <= usize::MAX,
            pts(captured@).no_duplicates(),
            pts(captured@).to_set() == c0.union(
                wcaps_of(m, pts(frontier@).take(i as int).to_set(), k as int),
            ),
        decreases n - i,
    {
        let p = frontier[i];
        let ghost pre = pts(frontier@).take(i as int).to_set();
        let ghost cpre = pts(captured@).to_set();
        let ghost t1 = (p@.0 - k, p@.1);
        let ghost t2 = (p@.0 - k + 1, p@.1);
        let ghost g1 = if m.targets.contains(t1) {
            Set::empty().insert(t1)
        } else {
            Set::<(int, int)>::empty()
        };
        let ghost g2 = if m.targets.contains(t2) {
            Set::empty().insert(t2)
        } else {
            Set::<(int, int)>::empty()
        };
        if !grid.has_safe_space(&p) {
            // first candidate: (p.row - k, p.col)
            if p.row >= ku {
                let t = Point { row: p.row - ku, col: p.col };
                proof {
                    assert(t@ == t1);
                }
                if grid.has_sheep(&t) {
                    insert_new(captured, t);
                } else {
                }
            } else {
                proof {
                    assert(t1.0 < 0);
                    assert(!m.targets.contains(t1));
                }
            }
            proof {
                assert(pts(captured@).to_set() =~= cpre.union(g1));
            }
            let ghost cmid = pts(captured@).to_set();
            // second candidate: (p.row - k + 1, p.col)
            if p.row >= ku && p.row - ku < usize::MAX {
                let t = Point { row: p.row - ku + 1, col: p.col };
                proof {
                    assert(t@ == t2);
                }
                if grid.has_sheep(&t) {
                    insert_new(captured, t);
                }
            } else if p.row >= ku {
                // p.row - k == usize::MAX: the shifted row lies past every cell
                proof {
                    assert(t2.0 == usize::MAX + 1);
                    assert(!m.targets.contains(t2));
                }
            } else if ku - p.row == 1 {
                let t = Point { row: 0, col: p.col };
                proof {
                    assert(t@ == t2);
                }
                if grid.has_sheep(&t) {
                    insert_new(captured, t);
                }
            } else {
                proof {
                    assert(t2.0 < 0);
                    assert(!m.targets.contains(t2));
                }
            }
            proof {
                assert(pts(captured@).to_set() =~= cmid.union(g2));
            }
        } else {
            proof {
                assert(pts(captured@).to_set() =~= cpre);
            }
        }
        proof {
            let ghost cand = wcaps_of(m, Set::empty().insert(p@), k as int);
            if m.safe.contains(p@) {
                assert(cand =~= Set::empty()) by {
                    assert forall|t: (int, int)| !cand.contains(t) by {
                        if cand.contains(t) {
                            let w = choose|w: (int, int)|
                                #[trigger] Set::empty().insert(p@).contains(w)
                                    && !m.safe.contains(w) && (t == (w.0 - k, w.1) || t == (
                                w.0 - k + 1,
                                w.1,
                                ));
                            assert(w == p@);
                        }
                    }
                }
                assert(pts(captured@).to_set() =~= cpre.union(cand));
            } else {
                assert(cand =~= g1.union(g2)) by {
                    assert forall|t: (int, int)| cand.contains(t) implies g1.union(g2).contains(
                        t,
                    ) by {
                        let w = choose|w: (int, int)|
                            #[trigger] Set::empty().insert(p@).contains(w) && !m.safe.contains(w)
                                && (t == (w.0 - k, w.1) || t == (w.0 - k + 1, w.1));
                        assert(w == p@);
                    }
                    assert forall|t: (int, int)| g1.union(g2).contains(t) implies cand.contains(
                        t,
                    ) by {
                        assert(Set::empty().insert(p@).contains(p@));
                        assert(t == t1 || t == t2);
                        assert(m.targets.contains(t));
                    }
                }
                assert(pts(captured@).to_set() =~= cpre.union(cand));
            }
            assert(pts(frontier@).take(i + 1 as int) =~= pts(frontier@).take(i as int).push(
                frontier@[i as int]@,
            ));
            pts(frontier@).take(i as int).lemma_push_to_set_commute(frontier@[i as int]@);
            assert(pts(frontier@).take(i + 1 as int).to_set() =~= pre.insert(p@));
            assert(wcaps_of(m, pre.insert(p@), k as int) =~= wcaps_of(m, pre, k as int).union(
                cand,
            )) by {
                assert forall|t: (int, int)|
                    wcaps_of(m, pre.insert(p@), k as int).contains(t) == wcaps_of(
                    m,
                    pre,
                    k as int,
                ).union(cand).contains(t) by {
                    if wcaps_of(m, pre.insert(p@), k as int).contains(t) {
                        let w = choose|w: (int, int)|
                            #[trigger] pre.insert(p@).contains(w) && !m.safe.contains(w) && (t
                                == (w.0 - k, w.1) || t == (w.0 - k + 1, w.1));
                        if w == p@ {
                            assert(Set::empty().insert(p@).contains(p@));
                            assert(cand.contains(t));
                        } else {
                            assert(pre.contains(w));
                            assert(wcaps_of(m, pre, k as int).contains(t));
                        }
                    }
                    if wcaps_of(m, pre, k as int).contains(t) {
                        let w = choose|w: (int, int)|
                            #[trigger] pre.contains(w) && !m.safe.contains(w) && (t == (
                            w.0 - k,
                            w.1,
                            ) || t == (w.0 - k + 1, w.1));
                        assert(pre.insert(p@).contains(w));
                        assert(wcaps_of(m, pre.insert(p@), k as int).contains(t));
                    }
                    if cand.contains(t) {
                        let w = choose|w: (int, int)|
                            #[trigger] Set::empty().insert(p@).contains(w) && !m.safe.contains(w)
                                && (t == (w.0 - k, w.1) || t == (w.0 - k + 1, w.1));
                        assert(w == p@);
                        assert(pre.insert(p@).contains(p@));
                        assert(wcaps_of(m, pre.insert(p@), k as int).contains(t));
                    }
                }
            }
            assert(pts(captured@).to_set() =~= c0.union(
                wcaps_of(m, pts(frontier@).take(i + 1 as int).to_set(), k as int),
            ));
        }
        i += 1;
    }
    proof {
        assert(pts(frontier@).take(n as int) =~= pts(frontier@));
    }
}

/// The union of the knight moves of every frontier cell: the next frontier.
fn expand(grid: &Grid, frontier: &Vec<Point>) -> (next: Vec<Point>)
    ensures
        pts(next@).no_duplicates(),
        pts(next@).to_set() == step_set(grid@, pts(frontier@).to_set()),
{
    let ghost m = grid@;
    let n = frontier.len();
    let mut next: Vec<Point> = Vec::new();
    let mut i: usize = 0;
    while i < n
        invariant
            m == grid@,
            n == frontier@.len(),
            0 <= i <= n,
            pts(next@).no_duplicates(),
            pts(next@).to_set() == step_set(m, pts(frontier@).take(i as int).to_set()),
        decreases n - i,
    {
        let p = frontier[i];
        let ghost pre = pts(frontier@).take(i as int).to_set();
        let moves = grid.next_moves(&p);
        let nm = moves.len();
        let mut j: usize = 0;
        while j < nm
            invariant
                m == grid@,
                nm == moves@.len(),
                0 <= j <= nm,
                pts(moves@).to_set() == knight_moves(p@, m.lim),
                pts(next@).no_duplicates(),
                pts(next@).to_set() == step_set(m, pre).union(
                    pts(moves@).take(j as int).to_set(),
                ),
            decreases nm - j,
        {
            insert_new(&mut next, moves[j]);
            proof {
                assert(pts(moves@).take(j + 1 as int) =~= pts(moves@).take(j as int).push(
                    moves@[j as int]@,
                ));
                pts(moves@).take(j as int).lemma_push_to_set_commute(moves@[j as int]@);
                assert(pts(next@).to_set() =~= step_set(m, pre).union(
                    pts(moves@).take(j + 1 as int).to_set(),
                ));
            }
            j += 1;
        }
        proof {
            assert(pts(moves@).take(nm as int) =~= pts(moves@));
            assert(pts(frontier@).take(i + 1 as int) =~= pts(frontier@).take(i as int).push(
                frontier@[i as int]@,
            ));
            pts(frontier@).take(i as int).lemma_push_to_set_commute(frontier@[i as int]@);
            assert(step_set(m, pre.insert(p@)) =~= step_set(m, pre).union(
                knight_moves(p@, m.lim),
            )) by {
                assert forall|q: (int, int)|
                    step_set(m, pre.insert(p@)).contains(q) implies step_set(m, pre).contains(q)
                    || knight_moves(p@, m.lim).contains(q) by {
                    let w = choose|w: (int, int)|
                        #[trigger] pre.insert(p@).contains(w) && knight_moves(
                            w,
                            m.lim,
                        ).contains(q);
                    if w != p@ {
                        assert(pre.contains(w));
                    }
                }
                assert forall|q: (int, int)|
                    step_set(m, pre).contains(q) || knight_moves(p@, m.lim).contains(
                        q,
                    ) implies step_set(m, pre.insert(p@)).contains(q) by {
                    if step_set(m, pre).contains(q) {
                        let w = choose|w: (int, int)|
                            #[trigger] pre.contains(w) && knight_moves(w, m.lim).contains(q);
                        assert(pre.insert(p@).contains(w));
                    } else {
                        assert(pre.insert(p@).contains(p@));
                    }
                }
            }
            assert(pts(next@).to_set() =~= step_set(
                m,
                pts(frontier@).take(i + 1 as int).to_set(),
            ));
        }
        i += 1;
    }
    proof {
        assert(pts(frontier@).take(n as int) =~= pts(frontier@));
    }
    next
}

/// Runs the immediate-capture rule for exactly `rounds` moves and counts
/// the distinct targets consumed: round 0 checks the start cell itself,
/// every later round checks the whole frontier after one more move.
pub fn run_simple(grid: &Grid, rounds: u32) -> (r: u64)
    ensures
        r as int == captured_simple_upto(grid@, rounds as int).len(),
{
    let ghost m = grid@;
    let mut frontier: Vec<Point> = Vec::new();
    frontier.push(grid.start());
    let mut captured: Vec<Point> = Vec::new();
    let mut k: u32 = 0;
    proof {
        assert(pts(frontier@) =~= seq![m.start]);
        assert(pts(frontier@).to_set() =~= frontier_at(m, 0)) by {
            assert(pts(frontier@)[0] == m.start);
            assert(pts(frontier@).contains(m.start));
            assert forall|q: (int, int)| pts(frontier@).to_set().contains(q) implies q
                == m.start by {
                let w = choose|w: int| 0 <= w < pts(frontier@).len() && pts(frontier@)[w] == q;
            }
        }
    }
    loop
        invariant
            m == grid@,
            0 <= k <= rounds,
            pts(frontier@).to_set() == frontier_at(m, k as int),
            pts(captured@).no_duplicates(),
            pts(captured@).to_set() == captured_simple_before(m, k as int),
        decreases rounds - k,
    {
        add_captures_simple(grid, &frontier, &mut captured);
        proof {
            assert(pts(captured@).to_set() =~= captured_simple_upto(m, k as int));
        }
        if k == rounds {
            proof {
                pts(captured@).unique_seq_to_set();
            }
            return captured.len() as u64;
        }
        frontier = expand(grid, &frontier);
        k += 1;
    }
}

/// Runs the windowed (time-gated) rule for exactly `rounds` moves and
/// counts the distinct targets consumed.
pub fn run_windowed(grid: &Grid, rounds: u32) -> (r: u64)
    ensures
        r as int == captured_windowed_upto(grid@, rounds as int).len(),
{
    let ghost m = grid@;
    let mut frontier: Vec<Point> = Vec::new();
    frontier.push(grid.start());
    let mut captured: Vec<Point> = Vec::new();
    let mut k: u32 = 0;
    proof {
        assert(pts(frontier@) =~= seq![m.start]);
        assert(pts(frontier@).to_set() =~= frontier_at(m, 0)) by {
            assert(pts(frontier@)[0] == m.start);
            assert(pts(frontier@).contains(m.start));
            assert forall|q: (int, int)| pts(frontier@).to_set().contains(q) implies q
                == m.start by {
                let w = choose|w: int| 0 <= w < pts(frontier@).len() && pts(frontier@)[w] == q;
            }
        }
    }
    loop
        invariant
            m == grid@,
            0 <= k <= rounds,
            pts(frontier@).to_set() == frontier_at(m, k as int),
            pts(captured@).no_duplicates(),
            pts(captured@).to_set() == captured_windowed_before(m, k as int),
        decreases rounds - k,
    {
        add_captures_windowed(grid, &frontier, k, &mut captured);
        proof {
            assert(pts(captured@).to_set() =~= captured_windowed_upto(m, k as int));
        }
        if k == rounds {
            proof {
                pts(captured@).unique_seq_to_set();
            }
            return captured.len() as u64;
        }
        frontier = expand(grid, &frontier);
        k += 1;
    }
}


// ===== entry points =====

/// The captured count of the immediate-capture rule on a textual grid,
/// `None` exactly when the text is malformed.
pub fn part1(input: &str, rounds: u32) -> (r: Option<u64>)
    ensures
        r is Some <==> good_text(input@),
        r is Some ==> r->0 as int == captured_simple_upto(
            text_model(input@),
            rounds as int,
        ).len(),
{
    match Grid::parse(input) {
        Some(grid) => Some(run_simple(&grid, rounds)),
        None => None,
    }
}

/// The captured count of the windowed rule on a textual grid, `None`
/// exactly when the text is malformed.
pub fn part2(input: &str, rounds: u32) -> (r: Option<u64>)
    ensures
        r is Some <==> good_text(input@),
        r is Some ==> r->0 as int == captured_windowed_upto(
            text_model(input@),
            rounds as int,
        ).len(),
{
    match Grid::parse(input) {
        Some(grid) => Some(run_windowed(&grid, rounds)),
        None => None,
    }
}

/// Solves both variants of the grid puzzle.  The move budgets are part of
/// the scenario, so the caller supplies them.
pub struct Day10Solver {
    pub simple_rounds: u32,
    pub windowed_rounds: u32,
}

impl crate::solutions::solution::Solver for Day10Solver {
    fn solve(&self, input: crate::solutions::solution::Input) -> Option<
        crate::solutions::solution::Solution,
    > {
        let p1 = match part1(input.part1.as_str(), self.simple_rounds) {
            Some(n) => crate::text::to_decimal(n),
            None => {
                return None;
            },
        };
        let p2 = match part2(input.part2.as_str(), self.windowed_rounds) {
            Some(n) => crate::text::to_decimal(n),
            None => {
                return None;
            },
        };
        Some(
            crate::solutions::solution::Solution {
                part1: p1,
                part2: p2,
                part3: String::new(),
            },
        )
    }
}

// ===== stated laws =====

/// With no moves made, the immediate rule consumes exactly the agent's
/// own starting cell when that cell is an unprotected target, and
/// nothing otherwise.
pub proof fn lemma_round_zero_simple(m: GridModel)
    ensures
        captured_simple_upto(m, 0).len() == if m.can_capture(m.start) {
            1nat
        } else {
            0nat
        },
{
    let f0 = Set::<(int, int)>::empty().insert(m.start);
    assert(frontier_at(m, 0) == f0);
    if m.can_capture(m.start) {
        assert(caps_of(m, f0) =~= Set::empty().insert(m.start));
    } else {
        assert(caps_of(m, f0) =~= Set::<(int, int)>::empty());
    }
}

/// Each round's consumption only ever adds to the captured set.
pub proof fn lemma_simple_captures_grow(m: GridModel, k1: int, k2: int)
    requires
        0 <= k1 <= k2,
    ensures
        captured_simple_upto(m, k1).subset_of(captured_simple_upto(m, k2)),
    decreases k2 - k1,
{
    if k1 < k2 {
        lemma_simple_captures_grow(m, k1, k2 - 1);
    }
}

/// The same for the windowed rule.
pub proof fn lemma_windowed_captures_grow(m: GridModel, k1: int, k2: int)
    requires
        0 <= k1 <= k2,
    ensures
        captured_windowed_upto(m, k1).subset_of(captured_windowed_upto(m, k2)),
    decreases k2 - k1,
{
    if k1 < k2 {
        lemma_windowed_captures_grow(m, k1, k2 - 1);
    }
}

/// Whatever either rule consumes is a target cell.
pub proof fn lemma_captures_are_targets(m: GridModel, k: int)
    requires
        k >= 0,
    ensures
        captured_simple_upto(m, k).subset_of(m.targets),
        captured_windowed_upto(m, k).subset_of(m.targets),
    decreases k,
{
    if k > 0 {
        lemma_captures_are_targets(m, k - 1);
    }
}

/// The captured count never decreases as the round budget grows, for a
/// fixed grid and fixed rule variant.
pub proof fn lemma_captured_count_monotone(m: GridModel, k1: int, k2: int)
    requires
        0 <= k1 <= k2,
        m.targets.finite(),
    ensures
        captured_simple_upto(m, k1).len() <= captured_simple_upto(m, k2).len(),
        captured_windowed_upto(m, k1).len() <= captured_windowed_upto(m, k2).len(),
{
    lemma_simple_captures_grow(m, k1, k2);
    lemma_windowed_captures_grow(m, k1, k2);
    lemma_captures_are_targets(m, k2);
    vstd::set_lib::lemma_len_subset(captured_simple_upto(m, k2), m.targets);
    vstd::set_lib::lemma_len_subset(captured_simple_upto(m, k1), captured_simple_upto(m, k2));
    vstd::set_lib::lemma_len_subset(captured_windowed_upto(m, k2), m.targets);
    vstd::set_lib::lemma_len_subset(
        captured_windowed_upto(m, k1),
        captured_windowed_upto(m, k2),
    );
}

/// A frontier cell marked safe contributes nothing under the windowed
/// rule: its trailing candidates are never evaluated, so dropping every
/// protected cell from the frontier leaves the round's captures unchanged.
pub proof fn lemma_windowed_safe_cells_inert(m: GridModel, f: Set<(int, int)>, k: int)
    ensures
        wcaps_of(m, f, k) == wcaps_of(m, f.difference(m.safe), k),
{
    assert(wcaps_of(m, f, k) =~= wcaps_of(m, f.difference(m.safe), k)) by {
        assert forall|t: (int, int)|
            wcaps_of(m, f, k).contains(t) == wcaps_of(m, f.difference(m.safe), k).contains(
                t,
            ) by {
            if wcaps_of(m, f, k).contains(t) {
                let w = choose|w: (int, int)|
                    #[trigger] f.contains(w) && !m.safe.contains(w) && (t == (w.0 - k, w.1) || t
                        == (w.0 - k + 1, w.1));
                assert(f.difference(m.safe).contains(w));
                assert(wcaps_of(m, f.difference(m.safe), k).contains(t));
            }
            if wcaps_of(m, f.difference(m.safe), k).contains(t) {
                let w = choose|w: (int, int)|
                    #[trigger] f.difference(m.safe).contains(w) && !m.safe.contains(w) && (t == (
                    w.0 - k,
                    w.1,
                    ) || t == (w.0 - k + 1, w.1));
                assert(f.contains(w));
                assert(wcaps_of(m, f, k).contains(t));
            }
        }
    }
}

} // verus!
