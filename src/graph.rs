//! Containers indexed by cell, by line and by edge, and the cost interface
//! that the shortest-path search consults.
use crate::grid::{
    Axis, Dir, EdgeIndex, LineIndex, Pos, EDGES_PER_LINE, GRID_LEN, NUM_CELLS, NUM_EDGES,
    NUM_LINES,
};
use crate::model::lemma_edge_id_bounds;
use vstd::prelude::*;

verus! {

/// Anything that prices every edge with a non-negative integer.
pub trait Graph {
    spec fn graph_wf(&self) -> bool;

    /// The cost of edge `e`.
    spec fn edge_weight(&self, e: EdgeIndex) -> int;

    fn get_cost(&self, e: EdgeIndex) -> (c: u32)
        requires
            self.graph_wf(),
            e.wf(),
        ensures
            c == self.edge_weight(e),
    ;

    /// No edge has a negative cost.
    proof fn lemma_weights_nonneg(&self)
        requires
            self.graph_wf(),
        ensures
            forall|e: EdgeIndex| e.wf() ==> #[trigger] self.edge_weight(e) >= 0,
    ;
}

/// One value per cell.
pub struct Grid<T: Copy> {
    cells: Vec<T>,
}

impl<T: Copy> Grid<T> {
    pub closed spec fn view(&self) -> Seq<T> {
        self.cells@
    }

    pub fn new(value: T) -> (g: Grid<T>)
        ensures
            g.view().len() == NUM_CELLS,
            forall|i: int| 0 <= i < NUM_CELLS ==> #[trigger] g.view()[i] == value,
    {
        let mut cells: Vec<T> = Vec::new();
        let mut i: usize = 0;
        while i < NUM_CELLS
            invariant
                i <= NUM_CELLS,
                cells@.len() == i,
                forall|j: int| 0 <= j < i ==> #[trigger] cells@[j] == value,
            decreases NUM_CELLS - i,
        {
            cells.push(value);
            i += 1;
        }
        Grid { cells }
    }

    pub fn get(&self, p: Pos) -> (v: T)
        requires
            self.view().len() == NUM_CELLS,
            p.wf(),
        ensures
            v == self.view()[p.spec_id()],
    {
        self.cells[p.id()]
    }

    pub fn set(&mut self, p: Pos, v: T)
        requires
            old(self).view().len() == NUM_CELLS,
            p.wf(),
        ensures
            final(self).view() == old(self).view().update(p.spec_id(), v),
    {
        self.cells.set(p.id(), v);
    }
}

/// One value per line.
pub struct GridLines<T: Copy> {
    lines: Vec<T>,
}

impl<T: Copy> GridLines<T> {
    pub closed spec fn view(&self) -> Seq<T> {
        self.lines@
    }

    pub fn new(value: T) -> (g: GridLines<T>)
        ensures
            g.view().len() == NUM_LINES,
            forall|i: int| 0 <= i < NUM_LINES ==> #[trigger] g.view()[i] == value,
    {
        let mut lines: Vec<T> = Vec::new();
        let mut i: usize = 0;
        while i < NUM_LINES
            invariant
                i <= NUM_LINES,
                lines@.len() == i,
                forall|j: int| 0 <= j < i ==> #[trigger] lines@[j] == value,
            decreases NUM_LINES - i,
        {
            lines.push(value);
            i += 1;
        }
        GridLines { lines }
    }

    pub fn get(&self, l: LineIndex) -> (v: T)
        requires
            self.view().len() == NUM_LINES,
            l.wf(),
        ensures
            v == self.view()[l.spec_id()],
    {
        self.lines[l.id()]
    }

    pub fn set(&mut self, l: LineIndex, v: T)
        requires
            old(self).view().len() == NUM_LINES,
            l.wf(),
        ensures
            final(self).view() == old(self).view().update(l.spec_id(), v),
    {
        self.lines.set(l.id(), v);
    }
}

/// One value per edge.
pub struct GridGraph<T: Copy> {
    edges: Vec<T>,
}

impl<T: Copy> GridGraph<T> {
    pub closed spec fn view(&self) -> Seq<T> {
        self.edges@
    }

    pub open spec fn wf(&self) -> bool {
        self.view().len() == NUM_EDGES
    }

    pub fn new(value: T) -> (g: GridGraph<T>)
        ensures
            g.wf(),
            forall|i: int| 0 <= i < NUM_EDGES ==> #[trigger] g.view()[i] == value,
    {
        let mut edges: Vec<T> = Vec::new();
        let mut i: usize = 0;
        while i < NUM_EDGES
            invariant
                i <= NUM_EDGES,
                edges@.len() == i,
                forall|j: int| 0 <= j < i ==> #[trigger] edges@[j] == value,
            decreases NUM_EDGES - i,
        {
            edges.push(value);
            i += 1;
        }
        GridGraph { edges }
    }

    /// A graph from the costs of the horizontal edges (`horizontal[row][col]`
    /// joins `(row, col)` and `(row, col + 1)`) and of the vertical ones
    /// (`vertical[row][col]` joins `(row, col)` and `(row + 1, col)`).
    pub fn from_arrays(horizontal: &Vec<Vec<T>>, vertical: &Vec<Vec<T>>, fill: T) -> (g: GridGraph<T>)
        requires
            horizontal@.len() == GRID_LEN,
            forall|i: int| 0 <= i < GRID_LEN ==> (#[trigger] horizontal@[i])@.len() == EDGES_PER_LINE,
            vertical@.len() == EDGES_PER_LINE,
            forall|i: int| 0 <= i < EDGES_PER_LINE ==> (#[trigger] vertical@[i])@.len() == GRID_LEN,
        ensures
            g.wf(),
            forall|e: EdgeIndex|
                e.wf() ==> #[trigger] g.view()[e.spec_id()] == match e.line.axis {
                    Axis::Horizontal => horizontal@[e.line.index as int]@[e.x as int],
                    Axis::Vertical => vertical@[e.x as int]@[e.line.index as int],
                },
    {
        let mut graph = GridGraph::new(fill);
        let mut id: usize = 0;
        while id < NUM_LINES
            invariant
                id <= NUM_LINES,
                graph.wf(),
                horizontal@.len() == GRID_LEN,
                forall|i: int| 0 <= i < GRID_LEN ==> (#[trigger] horizontal@[i])@.len() == EDGES_PER_LINE,
                vertical@.len() == EDGES_PER_LINE,
                forall|i: int| 0 <= i < EDGES_PER_LINE ==> (#[trigger] vertical@[i])@.len() == GRID_LEN,
                forall|e: EdgeIndex|
                    e.wf() && e.line.spec_id() < id ==> #[trigger] graph.view()[e.spec_id()] == match e.line.axis {
                        Axis::Horizontal => horizontal@[e.line.index as int]@[e.x as int],
                        Axis::Vertical => vertical@[e.x as int]@[e.line.index as int],
                    },
            decreases NUM_LINES - id,
        {
            let line = LineIndex::pick(id);
            let mut x: usize = 0;
            while x < EDGES_PER_LINE
                invariant
                    x <= EDGES_PER_LINE,
                    id < NUM_LINES,
                    line.wf(),
                    line.spec_id() == id,
                    graph.wf(),
                    horizontal@.len() == GRID_LEN,
                    forall|i: int| 0 <= i < GRID_LEN ==> (#[trigger] horizontal@[i])@.len() == EDGES_PER_LINE,
                    vertical@.len() == EDGES_PER_LINE,
                    forall|i: int| 0 <= i < EDGES_PER_LINE ==> (#[trigger] vertical@[i])@.len() == GRID_LEN,
                    forall|e: EdgeIndex|
                        e.wf() && (e.line.spec_id() < id || (e.line.spec_id() == id && e.x < x))
                            ==> #[trigger] graph.view()[e.spec_id()] == match e.line.axis {
                            Axis::Horizontal => horizontal@[e.line.index as int]@[e.x as int],
                            Axis::Vertical => vertical@[e.x as int]@[e.line.index as int],
                        },
                decreases EDGES_PER_LINE - x,
            {
                let edge = EdgeIndex::new(line, x as u8);
                let value = match line.axis {
                    Axis::Horizontal => horizontal[line.index as usize][x],
                    Axis::Vertical => vertical[x][line.index as usize],
                };
                let ghost before = graph.view();
                graph.set(edge, value);
                proof {
                    lemma_edge_id_bounds(edge);
                    assert forall|e: EdgeIndex|
                        e.wf() && (e.line.spec_id() < id || (e.line.spec_id() == id && e.x < x + 1))
                            implies #[trigger] graph.view()[e.spec_id()] == match e.line.axis {
                            Axis::Horizontal => horizontal@[e.line.index as int]@[e.x as int],
                            Axis::Vertical => vertical@[e.x as int]@[e.line.index as int],
                        } by {
                        lemma_edge_id_bounds(e);
                        if e.spec_id() == edge.spec_id() {
                            assert(e.line.spec_id() == edge.line.spec_id() && e.x == edge.x);
                            assert(e.line.axis == edge.line.axis && e.line.index == edge.line.index);
                        }
                    }
                }
                x += 1;
            }
            id += 1;
        }
        graph
    }

    /// A graph holding `values[e.spec_id()]` for each edge `e`.
    pub fn from_vec(values: Vec<T>) -> (g: GridGraph<T>)
        requires
            values@.len() == NUM_EDGES,
        ensures
            g.wf(),
            g.view() == values@,
    {
        GridGraph { edges: values }
    }

    pub fn get(&self, e: EdgeIndex) -> (v: T)
        requires
            self.wf(),
            e.wf(),
        ensures
            v == self.view()[e.spec_id()],
    {
        self.edges[e.id()]
    }

    pub fn set(&mut self, e: EdgeIndex, v: T)
        requires
            old(self).wf(),
            e.wf(),
        ensures
            final(self).view() == old(self).view().update(e.spec_id(), v),
            final(self).wf(),
    {
        proof {
            lemma_edge_id_bounds(e);
        }
        self.edges.set(e.id(), v);
    }

    /// The value of the edge crossed by the move `d` from `p`.
    pub fn get_at(&self, p: Pos, d: Dir) -> (v: T)
        requires
            self.wf(),
            p.wf(),
            p.can_move(d),
        ensures
            v == self.view()[EdgeIndex::spec_from_move(p, d).spec_id()],
    {
        self.get(EdgeIndex::from_move(p, d))
    }
}

impl Graph for GridGraph<u32> {
    open spec fn graph_wf(&self) -> bool {
        self.wf()
    }

    open spec fn edge_weight(&self, e: EdgeIndex) -> int {
        self.view()[e.spec_id()] as int
    }

    fn get_cost(&self, e: EdgeIndex) -> (c: u32) {
        self.get(e)
    }

    proof fn lemma_weights_nonneg(&self) {
    }
}

} // verus!
