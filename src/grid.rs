//! Positions, directions, lines and edges of the square grid.
use vstd::prelude::*;

verus! {

/// Side length of the grid.
pub const GRID_LEN: usize = 30;

/// Number of turns in a session.
pub const NUM_TURN: usize = 1000;

/// Number of cells of the grid.
pub const NUM_CELLS: usize = 900;

/// Number of lines (rows and columns).
pub const NUM_LINES: usize = 60;

/// Number of edges on one line.
pub const EDGES_PER_LINE: usize = 29;

/// Number of undirected edges of the grid.
pub const NUM_EDGES: usize = 1740;

#[derive(Debug, Clone, Copy, PartialEq, Eq, Structural)]
pub enum Dir {
    Up,
    Down,
    Left,
    Right,
}

impl Dir {
    /// The four directions in the order in which neighbours are explored.
    pub fn iter() -> (r: Vec<Dir>)
        ensures
            r@ == seq![Dir::Up, Dir::Left, Dir::Down, Dir::Right],
    {
        vec![Dir::Up, Dir::Left, Dir::Down, Dir::Right]
    }

    pub open spec fn spec_rev(self) -> Dir {
        match self {
            Dir::Up => Dir::Down,
            Dir::Down => Dir::Up,
            Dir::Left => Dir::Right,
            Dir::Right => Dir::Left,
        }
    }

    pub fn rev(&self) -> (r: Dir)
        ensures
            r == self.spec_rev(),
    {
        match self {
            Dir::Up => Dir::Down,
            Dir::Down => Dir::Up,
            Dir::Left => Dir::Right,
            Dir::Right => Dir::Left,
        }
    }

    pub open spec fn spec_char(self) -> char {
        match self {
            Dir::Up => 'U',
            Dir::Down => 'D',
            Dir::Left => 'L',
            Dir::Right => 'R',
        }
    }

    pub fn to_char(&self) -> (r: char)
        ensures
            r == self.spec_char(),
    {
        match self {
            Dir::Up => 'U',
            Dir::Down => 'D',
            Dir::Left => 'L',
            Dir::Right => 'R',
        }
    }

    pub open spec fn is_vertical(self) -> bool {
        self == Dir::Up || self == Dir::Down
    }
}

#[derive(Debug, Clone, Copy, PartialEq, Eq, Structural)]
pub struct Pos {
    pub r: u8,
    pub c: u8,
}

impl Pos {
    pub open spec fn wf(self) -> bool {
        self.r < GRID_LEN && self.c < GRID_LEN
    }

    /// Row-major number of the cell, in `0..NUM_CELLS` for a valid position.
    pub open spec fn spec_id(self) -> int {
        self.r * GRID_LEN as int + self.c
    }

    pub fn new(r: u8, c: u8) -> (p: Pos)
        ensures
            p.r == r && p.c == c,
    {
        Pos { r, c }
    }

    pub fn id(&self) -> (i: usize)
        requires
            self.wf(),
        ensures
            i == self.spec_id(),
            i < NUM_CELLS,
    {
        self.r as usize * GRID_LEN + self.c as usize
    }

    /// The neighbour in direction `d`, or `None` where the move leaves the grid.
    pub open spec fn spec_move(self, d: Dir) -> Option<Pos> {
        match d {
            Dir::Up => if self.r == 0 {
                None
            } else {
                Some(Pos { r: (self.r - 1) as u8, c: self.c })
            },
            Dir::Down => if self.r + 1 >= GRID_LEN {
                None
            } else {
                Some(Pos { r: (self.r + 1) as u8, c: self.c })
            },
            Dir::Left => if self.c == 0 {
                None
            } else {
                Some(Pos { r: self.r, c: (self.c - 1) as u8 })
            },
            Dir::Right => if self.c + 1 >= GRID_LEN {
                None
            } else {
                Some(Pos { r: self.r, c: (self.c + 1) as u8 })
            },
        }
    }

    pub open spec fn can_move(self, d: Dir) -> bool {
        self.spec_move(d) is Some
    }

    pub open spec fn moved(self, d: Dir) -> Pos {
        self.spec_move(d)->0
    }

    pub fn move_to(&self, d: Dir) -> (r: Option<Pos>)
        requires
            self.wf(),
        ensures
            r == self.spec_move(d),
            r matches Some(q) ==> q.wf(),
    {
        match d {
            Dir::Up => if self.r == 0 {
                None
            } else {
                Some(Pos::new(self.r - 1, self.c))
            },
            Dir::Down => if self.r as usize == GRID_LEN - 1 {
                None
            } else {
                Some(Pos::new(self.r + 1, self.c))
            },
            Dir::Left => if self.c == 0 {
                None
            } else {
                Some(Pos::new(self.r, self.c - 1))
            },
            Dir::Right => if self.c as usize == GRID_LEN - 1 {
                None
            } else {
                Some(Pos::new(self.r, self.c + 1))
            },
        }
    }
}

/// Moving one step and then back in the opposite direction returns to the start.
pub proof fn lemma_move_rev(p: Pos, d: Dir)
    requires
        p.wf(),
        p.can_move(d),
    ensures
        p.moved(d).wf(),
        p.moved(d).can_move(d.spec_rev()),
        p.moved(d).moved(d.spec_rev()) == p,
{
}

#[derive(Debug, Clone, Copy, PartialEq, Eq, Structural)]
pub enum Axis {
    /// A row: its edges run left to right.
    Horizontal,
    /// A column: its edges run up and down.
    Vertical,
}

impl Axis {
    pub fn iter() -> (r: Vec<Axis>)
        ensures
            r@ == seq![Axis::Horizontal, Axis::Vertical],
    {
        vec![Axis::Horizontal, Axis::Vertical]
    }

    pub open spec fn spec_usize(self) -> int {
        match self {
            Axis::Horizontal => 0,
            Axis::Vertical => 1,
        }
    }

    pub fn as_usize(&self) -> (r: usize)
        ensures
            r == self.spec_usize(),
    {
        match self {
            Axis::Horizontal => 0,
            Axis::Vertical => 1,
        }
    }
}

/// A row (horizontal) or a column (vertical) of the grid.
#[derive(Debug, Clone, Copy, PartialEq, Eq, Structural)]
pub struct LineIndex {
    pub axis: Axis,
    pub index: u8,
}

impl LineIndex {
    pub open spec fn wf(self) -> bool {
        self.index < GRID_LEN
    }

    /// Dense number of the line: rows first, then columns.
    pub open spec fn spec_id(self) -> int {
        self.axis.spec_usize() * GRID_LEN as int + self.index
    }

    pub open spec fn from_id(i: int) -> LineIndex {
        LineIndex {
            axis: if i < GRID_LEN { Axis::Horizontal } else { Axis::Vertical },
            index: (i % GRID_LEN as int) as u8,
        }
    }

    pub fn id(&self) -> (i: usize)
        requires
            self.wf(),
        ensures
            i == self.spec_id(),
            i < NUM_LINES,
    {
        self.axis.as_usize() * GRID_LEN + self.index as usize
    }

    pub fn new(axis: Axis, index: u8) -> (l: LineIndex)
        requires
            index < GRID_LEN,
        ensures
            l.axis == axis && l.index == index,
            l.wf(),
    {
        LineIndex { axis, index }
    }

    /// The line with dense number `id`.
    pub fn pick(id: usize) -> (l: LineIndex)
        requires
            id < NUM_LINES,
        ensures
            l.wf(),
            l.spec_id() == id,
            l == LineIndex::from_id(id as int),
    {
        if id < GRID_LEN {
            LineIndex { axis: Axis::Horizontal, index: id as u8 }
        } else {
            LineIndex { axis: Axis::Vertical, index: (id - GRID_LEN) as u8 }
        }
    }

    /// All lines, rows first, each in increasing index.
    pub fn iter() -> (r: Vec<LineIndex>)
        ensures
            r@.len() == NUM_LINES,
            forall|i: int| 0 <= i < NUM_LINES ==> #[trigger] r@[i] == LineIndex::from_id(i),
            forall|i: int| 0 <= i < NUM_LINES ==> (#[trigger] r@[i]).wf() && r@[i].spec_id() == i,
    {
        let mut r: Vec<LineIndex> = Vec::new();
        let mut i: usize = 0;
        while i < NUM_LINES
            invariant
                i <= NUM_LINES,
                r@.len() == i,
                forall|j: int| 0 <= j < i ==> #[trigger] r@[j] == LineIndex::from_id(j),
                forall|j: int| 0 <= j < i ==> (#[trigger] r@[j]).wf() && r@[j].spec_id() == j,
            decreases NUM_LINES - i,
        {
            let l = LineIndex::pick(i);
            r.push(l);
            i += 1;
        }
        r
    }

    /// The line on which the move `d` from `p` runs.
    pub open spec fn spec_from_move(p: Pos, d: Dir) -> LineIndex {
        if d.is_vertical() {
            LineIndex { axis: Axis::Vertical, index: p.c }
        } else {
            LineIndex { axis: Axis::Horizontal, index: p.r }
        }
    }

    pub fn from_move(p: Pos, d: Dir) -> (l: LineIndex)
        requires
            p.wf(),
            p.can_move(d),
        ensures
            l == LineIndex::spec_from_move(p, d),
            l.wf(),
    {
        match d {
            Dir::Up | Dir::Down => LineIndex { axis: Axis::Vertical, index: p.c },
            Dir::Left | Dir::Right => LineIndex { axis: Axis::Horizontal, index: p.r },
        }
    }
}

/// An undirected edge: the `x`-th edge of a line.
#[derive(Debug, Clone, Copy, PartialEq, Eq, Structural)]
pub struct EdgeIndex {
    pub line: LineIndex,
    pub x: u8,
}

impl EdgeIndex {
    pub open spec fn wf(self) -> bool {
        self.line.wf() && self.x + 1 < GRID_LEN
    }

    /// Dense number of the edge, in `0..NUM_EDGES` for a valid edge.
    pub open spec fn spec_id(self) -> int {
        self.line.spec_id() * EDGES_PER_LINE as int + self.x
    }

    pub open spec fn from_id(i: int) -> EdgeIndex {
        EdgeIndex {
            line: LineIndex::from_id(i / EDGES_PER_LINE as int),
            x: (i % EDGES_PER_LINE as int) as u8,
        }
    }

    pub fn id(&self) -> (i: usize)
        requires
            self.wf(),
        ensures
            i == self.spec_id(),
            i < NUM_EDGES,
    {
        self.line.id() * EDGES_PER_LINE + self.x as usize
    }

    pub fn new(line: LineIndex, x: u8) -> (e: EdgeIndex)
        requires
            line.wf(),
            x + 1 < GRID_LEN,
        ensures
            e.line == line && e.x == x,
            e.wf(),
    {
        EdgeIndex { line, x }
    }

    /// The edge with dense number `id`.
    pub fn pick(id: usize) -> (e: EdgeIndex)
        requires
            id < NUM_EDGES,
        ensures
            e.wf(),
            e.spec_id() == id,
    {
        let line = LineIndex::pick(id / EDGES_PER_LINE);
        EdgeIndex { line, x: (id % EDGES_PER_LINE) as u8 }
    }

    /// The edge crossed by the move `d` from `p`.
    pub open spec fn spec_from_move(p: Pos, d: Dir) -> EdgeIndex {
        EdgeIndex {
            line: LineIndex::spec_from_move(p, d),
            x: match d {
                Dir::Up => (p.r - 1) as u8,
                Dir::Down => p.r,
                Dir::Left => (p.c - 1) as u8,
                Dir::Right => p.c,
            },
        }
    }

    pub fn from_move(p: Pos, d: Dir) -> (e: EdgeIndex)
        requires
            p.wf(),
            p.can_move(d),
        ensures
            e == EdgeIndex::spec_from_move(p, d),
            e.wf(),
    {
        let line = LineIndex::from_move(p, d);
        let x = match d {
            Dir::Up => p.r - 1,
            Dir::Down => p.r,
            Dir::Left => p.c - 1,
            Dir::Right => p.c,
        };
        EdgeIndex { line, x }
    }
}

/// A move and the move back from the neighbour cross the same edge.
pub proof fn lemma_edge_of_rev_move(p: Pos, d: Dir)
    requires
        p.wf(),
        p.can_move(d),
    ensures
        EdgeIndex::spec_from_move(p, d) == EdgeIndex::spec_from_move(p.moved(d), d.spec_rev()),
{
}

#[derive(Debug, Clone, Copy, PartialEq, Eq, Structural)]
pub struct Query {
    pub src: Pos,
    pub dest: Pos,
}

impl Query {
    pub open spec fn wf(self) -> bool {
        self.src.wf() && self.dest.wf()
    }

    /// Row distance between the endpoints.
    pub fn height(&self) -> (h: u8)
        ensures
            h == if self.src.r >= self.dest.r {
                self.src.r - self.dest.r
            } else {
                self.dest.r - self.src.r
            },
    {
        if self.src.r >= self.dest.r {
            self.src.r - self.dest.r
        } else {
            self.dest.r - self.src.r
        }
    }

    /// Column distance between the endpoints.
    pub fn width(&self) -> (w: u8)
        ensures
            w == if self.src.c >= self.dest.c {
                self.src.c - self.dest.c
            } else {
                self.dest.c - self.src.c
            },
    {
        if self.src.c >= self.dest.c {
            self.src.c - self.dest.c
        } else {
            self.dest.c - self.src.c
        }
    }
}

/// Where a sequence of moves from `p` ends, or `None` if one of them leaves the grid.
pub open spec fn walk_end(p: Pos, path: Seq<Dir>) -> Option<Pos>
    decreases path.len(),
{
    if path.len() == 0 {
        Some(p)
    } else {
        match p.spec_move(path[0]) {
            Some(q) => walk_end(q, path.drop_first()),
            None => None,
        }
    }
}

/// The cells that a sequence of moves from `p` steps on, `p` included.
pub open spec fn walk_cells(p: Pos, path: Seq<Dir>) -> Seq<Pos>
    decreases path.len(),
{
    if path.len() == 0 {
        seq![p]
    } else {
        seq![p] + walk_cells(p.moved(path[0]), path.drop_first())
    }
}

/// The edges that a legal sequence of moves from `p` crosses, in order.
pub open spec fn walk_edges(p: Pos, path: Seq<Dir>) -> Seq<EdgeIndex>
    decreases path.len(),
{
    if path.len() == 0 {
        seq![]
    } else {
        seq![EdgeIndex::spec_from_move(p, path[0])] + walk_edges(p.moved(path[0]), path.drop_first())
    }
}

/// A legal path from `src` to `dest` that visits no cell twice.
pub open spec fn is_simple_path(src: Pos, dest: Pos, path: Seq<Dir>) -> bool {
    &&& walk_end(src, path) == Some(dest)
    &&& walk_cells(src, path).no_duplicates()
}

} // verus!

verus! {

/// Every edge crossed by a legal walk is a valid edge.
pub proof fn all_edges_wf_of_walk(p: Pos, path: Seq<Dir>)
    requires
        p.wf(),
        walk_end(p, path) is Some,
    ensures
        forall|i: int| 0 <= i < walk_edges(p, path).len() ==> (#[trigger] walk_edges(p, path)[i]).wf(),
        walk_edges(p, path).len() == path.len(),
    decreases path.len(),
{
    if path.len() > 0 {
        lemma_move_rev(p, path[0]);
        all_edges_wf_of_walk(p.moved(path[0]), path.drop_first());
        let rest = walk_edges(p.moved(path[0]), path.drop_first());
        assert forall|i: int| 0 <= i < walk_edges(p, path).len() implies (#[trigger] walk_edges(
            p,
            path,
        )[i]).wf() by {
            if i > 0 {
                assert(walk_edges(p, path)[i] == rest[i - 1]);
            }
        }
    }
}

} // verus!

verus! {

/// A walk split into two parts: it ends where the second part, walked from
/// the end of the first, ends; its cells are those of the first part
/// followed by those of the second after its start.
pub proof fn lemma_walk_concat(p: Pos, a: Seq<Dir>, b: Seq<Dir>)
    ensures
        walk_end(p, a + b) == match walk_end(p, a) {
            Some(q) => walk_end(q, b),
            None => None,
        },
        walk_end(p, a) matches Some(q) ==> walk_cells(p, a + b) == walk_cells(p, a) + walk_cells(
            q,
            b,
        ).drop_first(),
    decreases a.len(),
{
    if a.len() == 0 {
        assert(a + b =~= b);
        assert(walk_cells(p, b) =~= seq![p] + walk_cells(p, b).drop_first()) by {
            if b.len() == 0 {
            } else {
            }
        }
    } else {
        assert((a + b).drop_first() =~= a.drop_first() + b);
        assert((a + b)[0] == a[0]);
        match p.spec_move(a[0]) {
            Some(q) => {
                lemma_walk_concat(q, a.drop_first(), b);
                if walk_end(p, a) is Some {
                    assert(walk_cells(p, a + b) =~= seq![p] + walk_cells(q, a.drop_first() + b));
                }
            },
            None => {},
        }
    }
}

} // verus!
