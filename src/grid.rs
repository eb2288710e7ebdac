use vstd::prelude::*;
use vstd::arithmetic::div_mod::{
    lemma_fundamental_div_mod,
    lemma_fundamental_div_mod_converse,
    lemma_mod_pos_bound,
};
use vstd::set_lib::{lemma_int_range, lemma_len_subset, set_int_range};
use crate::cost::{cost_less_than, cost_lt, Estimate};
use crate::location::{dist_sq_spec, Location};

verus! {

/// The search state of one grid cell.
#[derive(Debug, Clone, Copy)]
pub struct Node {
    pub loc: Location,
    pub g: Option<u64>,
    pub f: Option<Estimate>,
    pub parent: Option<Location>,
    pub visited: bool,
    pub is_wall: bool,
    pub is_path: bool,
}

/// A node holds no search state: unknown costs, no predecessor, no flags but the wall.
pub open spec fn is_cleared(n: Node) -> bool {
    &&& n.g is None
    &&& n.f is None
    &&& n.parent is None
    &&& !n.visited
    &&& !n.is_path
}

impl Node {
    /// A non-wall node at `(x, y)` with no search state.
    pub fn new(x: i32, y: i32) -> (r: Node)
        ensures
            r.loc == Location(x, y),
            is_cleared(r),
            !r.is_wall,
    {
        Node {
            loc: Location(x, y),
            f: None,
            g: None,
            parent: None,
            visited: false,
            is_wall: false,
            is_path: false,
        }
    }

    /// Cost of the best known path from the search's start; `None` is infinite.
    pub fn cost_so_far(&self) -> (r: Option<u64>)
        ensures
            r == self.g,
    {
        self.g
    }

    /// Cost so far plus the straight-line distance left; `None` is infinite.
    pub fn estimated_total(&self) -> (r: Option<Estimate>)
        ensures
            r == self.f,
    {
        self.f
    }

    /// The cell this node was last reached from.
    pub fn predecessor(&self) -> (r: Option<Location>)
        ensures
            r == self.parent,
    {
        self.parent
    }
}

/// The most nodes a grid holds, so that row-major indices fit an `i32`, and
/// costs and distances fit the range that estimate comparisons handle.
pub const MAX_CELLS: i32 = 0x4000_0000;

/// Row-major index of a position on a grid `w` cells wide.
pub open spec fn index_spec(w: int, l: Location) -> int {
    l.1 * w + l.0
}

/// The position stored at row-major index `i` of a grid `w` cells wide.
pub open spec fn cell_loc(i: int, w: int) -> Location {
    Location((i % w) as i32, (i / w) as i32)
}

/// Positions and row-major indices correspond one to one on a `w` by `h` grid.
pub proof fn lemma_index_bijection(w: int, h: int, l: Location, i: int)
    requires
        0 <= w,
        0 <= h,
        w * h <= MAX_CELLS,
    ensures
        0 <= l.0 < w && 0 <= l.1 < h ==> 0 <= index_spec(w, l) < w * h && cell_loc(index_spec(w, l), w) == l,
        0 <= i < w * h ==> 0 <= cell_loc(i, w).0 < w && 0 <= cell_loc(i, w).1 < h && index_spec(w, cell_loc(i, w)) == i,
{
    if 0 <= l.0 < w && 0 <= l.1 < h || 0 <= i < w * h {
        assert(w <= w * h && h <= w * h) by (nonlinear_arith)
            requires 0 <= w, 0 <= h, w * h > 0 || (0 <= l.0 < w && 0 <= l.1 < h);
    }
    if 0 <= l.0 < w && 0 <= l.1 < h {
        let x = l.0 as int;
        let y = l.1 as int;
        assert(0 <= y * w + x < w * h) by (nonlinear_arith)
            requires 0 <= x < w, 0 <= y < h;
        lemma_fundamental_div_mod_converse(y * w + x, w, y, x);
    }
    if 0 <= i < w * h {
        lemma_fundamental_div_mod(i, w);
        lemma_mod_pos_bound(i, w);
        let q = i / w;
        let r = i % w;
        assert(0 <= q < h) by (nonlinear_arith)
            requires i == w * q + r, 0 <= r < w, 0 <= i < w * h;
        assert(q * w == w * q) by (nonlinear_arith);
    }
}

/// Two positions one unit move apart.
pub open spec fn adjacent(a: Location, b: Location) -> bool {
    (a.0 == b.0 && (a.1 - b.1 == 1 || b.1 - a.1 == 1)) || (a.1 == b.1 && (a.0 - b.0 == 1 || b.0
        - a.0 == 1))
}

/// The index of the first smallest cost among `fs[0..len]`, scanning left to right
/// and keeping the earlier entry on ties.
pub open spec fn first_min(fs: Seq<Option<Estimate>>, len: int) -> int
    decreases len,
{
    if len <= 1 {
        0
    } else {
        let b = first_min(fs, len - 1);
        if cost_lt(fs[len - 1], fs[b]) {
            len - 1
        } else {
            b
        }
    }
}

/// A `width` by `height` grid of nodes, stored row by row.
#[derive(Debug)]
pub struct Grid {
    width: i32,
    height: i32,
    nodes: Vec<Node>,
}

impl Grid {
    pub closed spec fn view_width(&self) -> int {
        self.width as int
    }

    pub closed spec fn view_height(&self) -> int {
        self.height as int
    }

    /// The nodes in row-major order.
    pub closed spec fn cells(&self) -> Seq<Node> {
        self.nodes@
    }

    pub open spec fn in_bounds(&self, l: Location) -> bool {
        0 <= l.0 < self.view_width() && 0 <= l.1 < self.view_height()
    }

    pub open spec fn index_of(&self, l: Location) -> int {
        index_spec(self.view_width(), l)
    }

    /// The node at an in-bounds position.
    pub open spec fn node_at(&self, l: Location) -> Node {
        self.cells()[self.index_of(l)]
    }

    /// Sizes within range, one node per position, each holding its own position.
    pub open spec fn wf(&self) -> bool {
        &&& 0 <= self.view_width()
        &&& 0 <= self.view_height()
        &&& self.view_width() * self.view_height() <= MAX_CELLS
        &&& self.cells().len() == self.view_width() * self.view_height()
        &&& forall|i: int|
            0 <= i < self.cells().len() ==> #[trigger] self.cells()[i].loc == cell_loc(
                i,
                self.view_width(),
            )
    }

    /// No node holds search state.
    pub open spec fn is_reset(&self) -> bool {
        forall|i: int| 0 <= i < self.cells().len() ==> is_cleared(#[trigger] self.cells()[i])
    }

    /// Grids with the same sizes, positions and walls.
    pub open spec fn same_layout(&self, other: &Grid) -> bool {
        &&& self.view_width() == other.view_width()
        &&& self.view_height() == other.view_height()
        &&& self.cells().len() == other.cells().len()
        &&& forall|i: int|
            0 <= i < self.cells().len() ==> (#[trigger] self.cells()[i]).loc == other.cells()[i].loc
                && self.cells()[i].is_wall == other.cells()[i].is_wall
    }

    pub proof fn lemma_index(&self, l: Location)
        requires
            self.wf(),
            self.in_bounds(l),
        ensures
            0 <= self.index_of(l) < self.cells().len(),
            self.node_at(l).loc == l,
    {
        lemma_index_bijection(self.view_width(), self.view_height(), l, 0);
    }

    /// Squared distances between positions on the grid stay within estimate bounds.
    pub proof fn lemma_dist_bound(&self, a: Location, b: Location)
        requires
            self.wf(),
            self.in_bounds(a),
            self.in_bounds(b),
        ensures
            0 <= dist_sq_spec(a, b) <= 0x2000_0000_0000_0000,
    {
        let w = self.view_width();
        let h = self.view_height();
        assert(w <= 0x4000_0000 && h <= 0x4000_0000) by (nonlinear_arith)
            requires 0 < w, 0 < h, w * h <= 0x4000_0000;
        let dx = a.0 - b.0;
        let dy = a.1 - b.1;
        assert(dx * dx <= 0x1000_0000_0000_0000 && dx * dx >= 0) by (nonlinear_arith)
            requires -0x4000_0000 <= dx <= 0x4000_0000;
        assert(dy * dy <= 0x1000_0000_0000_0000 && dy * dy >= 0) by (nonlinear_arith)
            requires -0x4000_0000 <= dy <= 0x4000_0000;
    }

    /// A grid of non-wall nodes with no search state.
    pub fn new(width: i32, height: i32) -> (r: Grid)
        requires
            0 <= width,
            0 <= height,
            width * height <= MAX_CELLS,
        ensures
            r.wf(),
            r.view_width() == width,
            r.view_height() == height,
            r.is_reset(),
            forall|i: int| 0 <= i < r.cells().len() ==> !(#[trigger] r.cells()[i]).is_wall,
    {
        let mut result = Grid { width, height, nodes: Vec::new() };
        let mut y: i32 = 0;
        while y < height
            invariant
                0 <= y <= height,
                result.width == width,
                result.height == height,
                0 <= width,
                0 <= height,
                width * height <= MAX_CELLS,
                result.nodes@.len() == y * width,
                forall|i: int|
                    0 <= i < result.nodes@.len() ==> (#[trigger] result.nodes@[i]).loc == cell_loc(i, width as int)
                        && is_cleared(result.nodes@[i]) && !result.nodes@[i].is_wall,
            decreases height - y,
        {
            let mut x: i32 = 0;
            while x < width
                invariant
                    0 <= y < height,
                    0 <= x <= width,
                    result.width == width,
                    result.height == height,
                    0 <= width,
                    0 <= height,
                    width * height <= MAX_CELLS,
                    result.nodes@.len() == y * width + x,
                    forall|i: int|
                        0 <= i < result.nodes@.len() ==> (#[trigger] result.nodes@[i]).loc == cell_loc(i, width as int)
                            && is_cleared(result.nodes@[i]) && !result.nodes@[i].is_wall,
                decreases width - x,
            {
                proof {
                    lemma_index_bijection(width as int, height as int, Location(x, y), 0);
                }
                result.nodes.push(Node::new(x, y));
                x = x + 1;
            }
            assert(y * width + width == (y + 1) * width) by (nonlinear_arith);
            y = y + 1;
        }
        assert(result.nodes@.len() == width * height) by (nonlinear_arith)
            requires y == height, result.nodes@.len() == y * width;
        result
    }

    /// The node at `loc`, which must lie on the grid.
    pub fn get_node(&self, loc: Location) -> (r: &Node)
        requires
            self.wf(),
            self.in_bounds(loc),
        ensures
            *r == self.node_at(loc),
            r.loc == loc,
    {
        let i = self.get_node_index(loc);
        &self.nodes[i]
    }

    pub fn get_width(&self) -> (r: i32)
        ensures
            r == self.view_width(),
    {
        self.width
    }

    pub fn get_height(&self) -> (r: i32)
        ensures
            r == self.view_height(),
    {
        self.height
    }

    fn get_node_index(&self, loc: Location) -> (r: usize)
        requires
            self.wf(),
            self.in_bounds(loc),
        ensures
            r == self.index_of(loc),
            r < self.cells().len(),
            self.cells()[r as int].loc == loc,
    {
        proof {
            self.lemma_index(loc);
            let w = self.view_width();
            let h = self.view_height();
            assert(0 <= loc.1 * w <= w * h) by (nonlinear_arith)
                requires 0 <= loc.1 < h, 0 <= w;
        }
        (loc.1 * self.width + loc.0) as usize
    }

    /// Clears all search state, keeping walls.
    pub fn reset(&mut self)
        requires
            old(self).wf(),
        ensures
            final(self).wf(),
            final(self).same_layout(old(self)),
            final(self).is_reset(),
    {
        let n = self.nodes.len();
        let mut i: usize = 0;
        while i < n
            invariant
                0 <= i <= n,
                n == self.nodes@.len(),
                self.wf(),
                self.same_layout(old(self)),
                forall|j: int| 0 <= j < i ==> is_cleared(#[trigger] self.nodes@[j]),
            decreases n - i,
        {
            let mut node = self.nodes[i];
            node.visited = false;
            node.is_path = false;
            node.f = None;
            node.g = None;
            node.parent = None;
            self.nodes.set(i, node);
            i = i + 1;
        }
    }

    /// Each node of `self` is node `i` of `before` with only its wall flag changed:
    /// set when it was set, or when the draw `rolls[i]` is at most
    /// `percent_chance`.
    pub open spec fn walls_rolled(&self, before: &Grid, rolls: Seq<u8>, percent_chance: u8) -> bool {
        &&& rolls.len() == before.cells().len()
        &&& self.cells().len() == before.cells().len()
        &&& forall|i: int|
            0 <= i < self.cells().len() ==> {
                let a = before.cells()[i];
                let b = #[trigger] self.cells()[i];
                &&& b.loc == a.loc && b.g == a.g && b.f == a.f && b.parent == a.parent
                &&& b.visited == a.visited && b.is_path == a.is_path
                &&& b.is_wall == (a.is_wall || rolls[i] <= percent_chance)
            }
    }

    /// Makes node `i` a wall when `rolls[i]` is at most `percent_chance`; walls stay.
    pub fn apply_wall_rolls(&mut self, rolls: &Vec<u8>, percent_chance: u8)
        requires
            old(self).wf(),
            rolls@.len() == old(self).cells().len(),
        ensures
            final(self).wf(),
            final(self).view_width() == old(self).view_width(),
            final(self).view_height() == old(self).view_height(),
            final(self).cells().len() == old(self).cells().len(),
            final(self).walls_rolled(old(self), rolls@, percent_chance),
    {
        let n = self.nodes.len();
        let mut i: usize = 0;
        while i < n
            invariant
                0 <= i <= n,
                n == self.nodes@.len(),
                n == old(self).cells().len(),
                rolls@.len() == n,
                self.width == old(self).view_width(),
                self.height == old(self).view_height(),
                self.wf(),
                forall|j: int|
                    0 <= j < n ==> {
                        let a = old(self).cells()[j];
                        let b = #[trigger] self.nodes@[j];
                        &&& b.loc == a.loc && b.g == a.g && b.f == a.f && b.parent == a.parent
                        &&& b.visited == a.visited && b.is_path == a.is_path
                        &&& b.is_wall == if j < i {
                            a.is_wall || rolls@[j] <= percent_chance
                        } else {
                            a.is_wall
                        }
                    },
            decreases n - i,
        {
            if rolls[i] <= percent_chance {
                let mut node = self.nodes[i];
                node.is_wall = true;
                self.nodes.set(i, node);
            }
            i = i + 1;
        }
    }

    /// Marks each node a wall independently, with chance `percent_chance` in a hundred:
    /// draws a number from 1 to 100 per node and applies the draws.
    pub fn randomize_walls(&mut self, percent_chance: u8)
        requires
            old(self).wf(),
        ensures
            final(self).wf(),
            final(self).view_width() == old(self).view_width(),
            final(self).view_height() == old(self).view_height(),
            final(self).cells().len() == old(self).cells().len(),
            exists|rolls: Seq<u8>|
                #[trigger] final(self).walls_rolled(old(self), rolls, percent_chance) && forall|i: int|
                    0 <= i < rolls.len() ==> 1 <= #[trigger] rolls[i] <= 100,
    {
        let n = self.nodes.len();
        let mut rolls: Vec<u8> = Vec::new();
        while rolls.len() < n
            invariant
                rolls@.len() <= n,
                forall|i: int| 0 <= i < rolls@.len() ==> 1 <= #[trigger] rolls@[i] <= 100,
            decreases n - rolls@.len(),
        {
            rolls.push(roll_percentile());
        }
        self.apply_wall_rolls(&rolls, percent_chance);
        proof {
            assert(self.walls_rolled(old(self), rolls@, percent_chance));
        }
    }
}

impl Grid {
    /// `path` runs from `start` to `dest` by unit moves over positions on the grid,
    /// none of them a wall but possibly `start`.
    pub open spec fn is_walk(&self, path: Seq<Location>, start: Location, dest: Location) -> bool {
        &&& path.len() >= 1
        &&& path[0] == start
        &&& path[path.len() - 1] == dest
        &&& forall|k: int| 0 <= k < path.len() ==> self.in_bounds(#[trigger] path[k])
        &&& forall|k: int| 1 <= k < path.len() ==> !self.node_at(#[trigger] path[k]).is_wall
        &&& forall|k: int| 0 <= k < path.len() - 1 ==> adjacent(#[trigger] path[k], path[k + 1])
    }

    /// Some walk leads from `start` to `dest`.
    pub open spec fn reachable(&self, start: Location, dest: Location) -> bool {
        exists|path: Seq<Location>| self.is_walk(path, start, dest)
    }

    /// The nodes marked on the path are exactly those of `path` after its first position.
    pub open spec fn marks_path(&self, path: Seq<Location>) -> bool {
        forall|i: int|
            0 <= i < self.cells().len() ==> ((#[trigger] self.cells()[i]).is_path <==> exists|k: int|
                1 <= k < path.len() && path[k] == self.cells()[i].loc)
    }

    spec fn node_ok(&self, i: int, s: int, k: int) -> bool {
        let nd = self.nodes@[i];
        &&& !nd.is_path
        &&& nd.visited ==> (i == s || !nd.is_wall) && nd.g is Some
        &&& k == 0 ==> !nd.visited
        &&& nd.g matches Some(v) ==> v <= k
        &&& nd.f matches Some(e) ==> e.bounded()
        &&& (nd.g is Some <==> nd.f is Some)
        &&& nd.f matches Some(e) ==> nd.g == Some(e.steps)
        &&& (nd.g is Some && nd.parent is None) ==> i == s
        &&& nd.parent matches Some(p) ==> {
            &&& self.in_bounds(p)
            &&& adjacent(p, nd.loc)
            &&& self.node_at(p).visited
            &&& nd.g is Some
            &&& self.node_at(p).g is Some
            &&& self.node_at(p).g.unwrap() < nd.g.unwrap()
        }
    }

    /// Every position next to `l` on the grid has a known cost.
    spec fn neighbors_reached(&self, l: Location) -> bool {
        forall|m: Location| self.in_bounds(m) && #[trigger] adjacent(l, m) ==> self.node_at(m).g is Some
    }

    /// Expanded nodes, but `pending`, have costed neighbours; a costed non-wall node is
    /// expanded or waiting in `open`.
    spec fn closed_inv(&self, open: Seq<usize>, pending: int) -> bool {
        &&& forall|i: int|
            0 <= i < self.nodes@.len() && (#[trigger] self.nodes@[i]).visited && i != pending
                ==> self.neighbors_reached(self.nodes@[i].loc)
        &&& forall|i: int|
            0 <= i < self.nodes@.len() && (#[trigger] self.nodes@[i]).g is Some && !self.nodes@[i].is_wall
                ==> self.nodes@[i].visited || open.contains(i as usize)
    }

    /// With `open` empty, every walk from an expanded `start` ends at an expanded node.
    proof fn lemma_walk_expanded(&self, path: Seq<Location>, start: Location, dest: Location, j: int)
        requires
            self.wf(),
            self.closed_inv(Seq::empty(), -1),
            self.is_walk(path, start, dest),
            self.node_at(start).visited,
            0 <= j < path.len(),
        ensures
            self.node_at(path[j]).visited,
        decreases j,
    {
        if j > 0 {
            self.lemma_walk_expanded(path, start, dest, j - 1);
            let prev = path[j - 1];
            self.lemma_index(prev);
            self.lemma_index(path[j]);
            assert(adjacent(path[j - 1], path[j]));
            assert(self.neighbors_reached(self.nodes@[self.index_of(prev)].loc));
            assert(self.nodes@[self.index_of(path[j])].g is Some);
        }
    }

    spec fn search_inv(&self, open: Seq<usize>, pushed: Set<int>, k: int, s: int, d: int) -> bool {
        let n = self.nodes@.len();
        &&& self.wf()
        &&& 0 <= s < n
        &&& 0 <= d < n
        &&& 0 <= k <= n + 1
        &&& k + open.len() == 1 + pushed.len()
        &&& pushed.finite()
        &&& pushed.subset_of(set_int_range(0, n as int))
        &&& k == 0 ==> open =~= seq![s as usize]
        &&& k >= 1 ==> self.nodes@[s].visited
        &&& self.nodes@[s].g == Some(0u64)
        &&& !self.nodes@[d].visited
        &&& forall|j: int|
            0 <= j < open.len() ==> {
                let c = #[trigger] open[j];
                &&& c < n
                &&& (c == s || !self.nodes@[c as int].is_wall)
                &&& self.nodes@[c as int].g is Some
            }
        &&& forall|i: int| #[trigger]
            pushed.contains(i) ==> self.nodes@[i].visited || open.contains(i as usize)
        &&& forall|i: int| 0 <= i < n ==> #[trigger] self.node_ok(i, s, k)
    }

    /// Whether `open` holds `c`.
    fn frontier_contains(open: &Vec<usize>, c: usize) -> (r: bool)
        ensures
            r == open@.contains(c),
    {
        let mut j: usize = 0;
        while j < open.len()
            invariant
                0 <= j <= open@.len(),
                forall|m: int| 0 <= m < j ==> open@[m] != c,
            decreases open@.len() - j,
        {
            if open[j] == c {
                return true;
            }
            j = j + 1;
        }
        false
    }

    /// The position in `open` of the first node with the smallest estimated total.
    fn select_min(&self, open: &Vec<usize>) -> (pos: usize)
        requires
            open@.len() > 0,
            forall|j: int|
                0 <= j < open@.len() ==> #[trigger] open@[j] < self.nodes@.len() && (
                self.nodes@[open@[j] as int].f matches Some(e) ==> e.bounded()),
        ensures
            pos < open@.len(),
            pos == first_min(open@.map_values(|c: usize| self.nodes@[c as int].f), open@.len() as int),
    {
        let ghost fs = open@.map_values(|c: usize| self.nodes@[c as int].f);
        let mut best: usize = 0;
        let mut j: usize = 1;
        while j < open.len()
            invariant
                1 <= j <= open@.len(),
                best < j,
                fs == open@.map_values(|c: usize| self.nodes@[c as int].f),
                best == first_min(fs, j as int),
                forall|m: int|
                    0 <= m < open@.len() ==> #[trigger] open@[m] < self.nodes@.len() && (
                    self.nodes@[open@[m] as int].f matches Some(e) ==> e.bounded()),
            decreases open@.len() - j,
        {
            assert(open@[j as int] < self.nodes@.len());
            assert(open@[best as int] < self.nodes@.len());
            if cost_less_than(&self.nodes[open[j]].f, &self.nodes[open[best]].f) {
                best = j;
            }
            j = j + 1;
        }
        best
    }
}

impl Grid {
    /// Offers `nb` a path through `cur`: when that is cheaper than its known cost, `cur`
    /// becomes its predecessor, and a non-wall node neither expanded nor waiting joins
    /// the frontier.
    fn relax(
        &mut self,
        open: &mut Vec<usize>,
        cur: usize,
        nb: Location,
        dest: Location,
        Ghost(s): Ghost<int>,
        Ghost(k): Ghost<int>,
        Ghost(pushed): Ghost<Set<int>>,
    ) -> (r: Ghost<Set<int>>)
        requires
            old(self).search_inv(old(open)@, pushed, k, s, old(self).index_of(dest)),
            1 <= k <= old(self).nodes@.len() + 1,
            cur < old(self).nodes@.len(),
            old(self).nodes@[cur as int].visited,
            old(self).nodes@[cur as int].g matches Some(v) && v < k,
            old(self).in_bounds(nb),
            old(self).in_bounds(dest),
            adjacent(old(self).nodes@[cur as int].loc, nb),
            old(self).closed_inv(old(open)@, cur as int),
        ensures
            final(self).search_inv(final(open)@, r@, k, s, old(self).index_of(dest)),
            final(self).closed_inv(final(open)@, cur as int),
            final(self).same_layout(old(self)),
            final(self).node_at(nb).g is Some,
            final(self).nodes@[cur as int] == old(self).nodes@[cur as int],
            final(self).nodes@[s] == old(self).nodes@[s],
            forall|i: int|
                0 <= i < old(self).nodes@.len() ==> (old(self).nodes@[i].g is Some ==> (
                #[trigger] final(self).nodes@[i]).g is Some) && final(self).nodes@[i].visited
                    == old(self).nodes@[i].visited,
            forall|m: Location|
                old(self).in_bounds(m) && old(self).node_at(m).g is Some ==> (#[trigger] final(self).node_at(m)).g is Some,
    {
        let ghost d = self.index_of(dest);
        let ghost n = self.nodes@.len() as int;
        proof {
            self.lemma_index(nb);
            let w = self.view_width();
            let h = self.view_height();
            assert(n <= 0x4000_0000);
            assert(self.node_ok(cur as int, s, k));
            self.lemma_dist_bound(nb, dest);
        }
        let nb_index = self.get_node_index(nb);
        let cur_loc = self.nodes[cur].loc;
        let tentative: u64 = self.nodes[cur].g.unwrap() + 1;
        let better = match self.nodes[nb_index].g {
            None => true,
            Some(g) => tentative < g,
        };
        if !better {
            proof {
                assert(self.node_at(nb).g is Some);
            }
            return Ghost(pushed);
        }
        let ghost before = self.nodes@;
        let mut node = self.nodes[nb_index];
        node.parent = Some(cur_loc);
        node.g = Some(tentative);
        node.f = Some(Estimate { steps: tentative, dist_sq: Location::dist(nb, dest).squared });
        proof {
            self.lemma_dist_bound(nb, dest);
            assert(node.f.unwrap().bounded());
        }
        self.nodes.set(nb_index, node);
        let waiting = Self::frontier_contains(open, nb_index);
        let ghost mut r = pushed;
        if !node.is_wall && !node.visited && !waiting {
            proof {
                assert(!pushed.contains(nb_index as int));
                r = pushed.insert(nb_index as int);
                assert(r.subset_of(set_int_range(0, n)));
            }
            open.push(nb_index);
        }
        proof {
            assert(self.nodes@[cur as int] == before[cur as int]);
            assert forall|i: int| #[trigger] r.contains(i) implies self.nodes@[i].visited
                || open@.contains(i as usize) by {
                if pushed.contains(i) && !before[i].visited {
                    let j = choose|j: int| 0 <= j < old(open)@.len() && old(open)@[j] == i as usize;
                    assert(open@[j] == i as usize);
                }
                if i == nb_index as int && open@.len() > old(open)@.len() {
                    assert(open@[open@.len() - 1] == i as usize);
                }
            }
            assert forall|i: int| 0 <= i < n implies #[trigger] self.node_ok(i, s, k) by {
                assert(old(self).node_ok(i, s, k));
                let nd = self.nodes@[i];
                if let Some(p) = nd.parent {
                    if i != nb_index as int {
                        assert(self.nodes@[i] == old(self).nodes@[i]);
                        old(self).lemma_index(p);
                        if old(self).index_of(p) == nb_index as int {
                            assert(self.node_at(p).g.unwrap() < before[nb_index as int].g.unwrap());
                        } else {
                            assert(self.node_at(p) == old(self).node_at(p));
                        }
                    } else {
                        assert(self.cells()[cur as int].loc == cell_loc(cur as int, self.view_width()));
                        lemma_index_bijection(self.view_width(), self.view_height(), cur_loc, cur as int);
                        self.lemma_index(cur_loc);
                    }
                }
            }
            assert forall|j: int| 0 <= j < open@.len() implies {
                let c = #[trigger] open@[j];
                &&& c < n
                &&& (c == s || !self.nodes@[c as int].is_wall)
                &&& self.nodes@[c as int].g is Some
            } by {
                if j < old(open)@.len() {
                    assert(old(open)@[j] == open@[j]);
                }
            }
            assert forall|i: int|
                0 <= i < n && (#[trigger] self.nodes@[i]).visited && i != cur as int
                    implies self.neighbors_reached(self.nodes@[i].loc) by {
                assert(old(self).neighbors_reached(old(self).nodes@[i].loc));
                assert forall|m: Location| self.in_bounds(m) && #[trigger] adjacent(self.nodes@[i].loc, m)
                    implies self.node_at(m).g is Some by {
                    assert(old(self).node_at(m).g is Some);
                    old(self).lemma_index(m);
                }
            }
            assert forall|i: int|
                0 <= i < n && (#[trigger] self.nodes@[i]).g is Some && !self.nodes@[i].is_wall
                    implies self.nodes@[i].visited || open@.contains(i as usize) by {
                if i != nb_index as int {
                    assert(self.nodes@[i] == old(self).nodes@[i]);
                    if !self.nodes@[i].visited {
                        let j = choose|j: int| 0 <= j < old(open)@.len() && old(open)@[j] == i as usize;
                        assert(open@[j] == i as usize);
                    }
                } else if open@.len() > old(open)@.len() {
                    assert(open@[open@.len() - 1] == i as usize);
                } else if waiting {
                    let j = choose|j: int| 0 <= j < old(open)@.len() && old(open)@[j] == i as usize;
                    assert(open@[j] == i as usize);
                }
            }
            assert forall|m: Location|
                old(self).in_bounds(m) && old(self).node_at(m).g is Some implies (#[trigger] self.node_at(m)).g is Some by {
                old(self).lemma_index(m);
            }
        }
        Ghost(r)
    }
}

impl Grid {
    /// Walks predecessor links back from `dest` to `start`, marking every node on the
    /// way but `start`; returns the walk from `start` to `dest`.
    fn backtrack_path(
        &mut self,
        start: Location,
        dest: Location,
        Ghost(open): Ghost<Seq<usize>>,
        Ghost(pushed): Ghost<Set<int>>,
        Ghost(k): Ghost<int>,
        Ghost(d): Ghost<int>,
    ) -> (path: Ghost<Seq<Location>>)
        requires
            old(self).search_inv(open, pushed, k, old(self).index_of(start), d),
            old(self).in_bounds(start),
            old(self).in_bounds(dest),
            old(self).node_at(dest).g is Some,
            dest == start || !old(self).node_at(dest).is_wall,
        ensures
            final(self).wf(),
            final(self).same_layout(old(self)),
            forall|i: int|
                0 <= i < old(self).cells().len() ==> {
                    let a = old(self).cells()[i];
                    let b = #[trigger] final(self).cells()[i];
                    b.g == a.g && b.f == a.f && b.parent == a.parent && b.visited == a.visited
                },
            forall|m: int|
                0 <= m < path@.len() - 1 ==> old(self).node_at(#[trigger] path@[m + 1]).parent == Some(path@[m]),
            final(self).is_walk(path@, start, dest),
            path@.no_duplicates(),
            final(self).marks_path(path@),
    {
        let ghost s = self.index_of(start);
        let mut cur = dest;
        let ghost mut chain: Seq<Location> = seq![dest];
        proof {
            assert forall|j: int| 0 <= j < self.cells().len() implies !(#[trigger] self.cells()[j]).is_path by {
                assert(old(self).node_ok(j, s, k));
            }
        }
        while cur != start
            invariant
                self.wf(),
                self.same_layout(old(self)),
                forall|i: int|
                    0 <= i < self.nodes@.len() ==> {
                        let a = old(self).nodes@[i];
                        let b = #[trigger] self.nodes@[i];
                        b.g == a.g && b.f == a.f && b.parent == a.parent && b.visited == a.visited
                    },
                forall|m: int|
                    0 <= m < chain.len() - 1 ==> old(self).node_at(#[trigger] chain[m + 1]).parent == Some(chain[m]),
                old(self).search_inv(open, pushed, k, s, d),
                s == self.index_of(start),
                self.in_bounds(start),
                self.in_bounds(cur),
                old(self).node_at(cur).g is Some,
                cur == start || !old(self).node_at(cur).is_wall,
                chain.len() >= 1,
                chain[0] == cur,
                chain[chain.len() - 1] == dest,
                forall|m: int| 0 <= m < chain.len() ==> self.in_bounds(#[trigger] chain[m]),
                forall|m: int| 0 <= m < chain.len() ==> (#[trigger] old(self).node_at(chain[m])).g is Some,
                forall|m: int| 1 <= m < chain.len() ==> !old(self).node_at(#[trigger] chain[m]).is_wall,
                forall|m: int| 0 <= m < chain.len() - 1 ==> adjacent(#[trigger] chain[m], chain[m + 1]),
                forall|a: int, b: int|
                    0 <= a < b < chain.len() ==> old(self).node_at(#[trigger] chain[a]).g.unwrap()
                        < old(self).node_at(#[trigger] chain[b]).g.unwrap(),
                self.marks_path(chain),
            decreases old(self).node_at(cur).g.unwrap(),
        {
            let i = self.get_node_index(cur);
            proof {
                assert(old(self).node_ok(i as int, s, k));
                old(self).lemma_index(start);
                assert(i as int != s);
            }
            let ghost before = self.nodes@;
            let mut node = self.nodes[i];
            node.is_path = true;
            self.nodes.set(i, node);
            let p = node.parent.unwrap();
            proof {
                self.lemma_index(p);
                let nc = seq![p] + chain;
                assert(nc[0] == p);
                assert forall|m: int| 0 < m < nc.len() implies nc[m] == chain[m - 1] by {}
                assert(old(self).node_at(cur).parent == Some(p));
                assert forall|m: int| 0 <= m < nc.len() - 1 implies old(self).node_at(#[trigger] nc[m + 1]).parent == Some(nc[m]) by {
                    if m > 0 {
                        assert(nc[m + 1] == chain[m] && nc[m] == chain[m - 1]);
                    }
                }
                old(self).lemma_index(p);
                assert(old(self).node_at(p).g.unwrap() < old(self).node_at(cur).g.unwrap());
                assert(old(self).node_ok(self.index_of(p), s, k));
                if self.index_of(p) == s {
                    assert(p == start);
                }
                assert forall|j: int| 0 <= j < self.cells().len() implies ((#[trigger] self.cells()[j]).is_path
                    <==> exists|m: int| 1 <= m < nc.len() && nc[m] == self.cells()[j].loc) by {
                    if j == i as int {
                        assert(nc[1] == cur);
                    } else {
                        assert(self.cells()[j] == before[j]);
                        if before[j].is_path {
                            let m = choose|m: int| 1 <= m < chain.len() && chain[m] == before[j].loc;
                            assert(nc[m + 1] == chain[m]);
                        }
                        if exists|m: int| 1 <= m < nc.len() && nc[m] == self.cells()[j].loc {
                            let m = choose|m: int| 1 <= m < nc.len() && nc[m] == self.cells()[j].loc;
                            if m == 1 {
                                assert(self.cells()[j].loc == cur);
                                self.lemma_index(cur);
                                lemma_index_bijection(self.view_width(), self.view_height(), cur, j);
                            } else {
                                assert(chain[m - 1] == self.cells()[j].loc);
                            }
                        }
                    }
                }
                assert forall|a: int, b: int| 0 <= a < b < nc.len() implies old(self).node_at(#[trigger] nc[a]).g.unwrap()
                    < old(self).node_at(#[trigger] nc[b]).g.unwrap() by {
                    if a == 0 {
                        if b > 1 {
                            assert(nc[b] == chain[b - 1]);
                            assert(old(self).node_at(chain[0]).g.unwrap() < old(self).node_at(chain[b - 1]).g.unwrap());
                        }
                    } else {
                        assert(nc[a] == chain[a - 1] && nc[b] == chain[b - 1]);
                    }
                }
                chain = nc;
            }
            cur = p;
        }
        proof {
            assert forall|m: int| 1 <= m < chain.len() implies !self.node_at(#[trigger] chain[m]).is_wall by {
                self.lemma_index(chain[m]);
            }
            assert forall|a: int, b: int| 0 <= a < chain.len() && 0 <= b < chain.len() && a != b
                implies chain[a] != chain[b] by {
                if a < b {
                    assert(old(self).node_at(chain[a]).g.unwrap() < old(self).node_at(chain[b]).g.unwrap());
                } else {
                    assert(old(self).node_at(chain[b]).g.unwrap() < old(self).node_at(chain[a]).g.unwrap());
                }
            }
        }
        Ghost(chain)
    }
}

impl Grid {
    /// A* search from `start` to `dest` over unit moves west, north, south and east,
    /// on a grid cleared by `reset`. Returns whether `dest` was reached; if so, the
    /// nodes of a walk from `start` to `dest` after `start` are marked on the path.
    #[verifier::rlimit(80)]
    pub fn a_star(&mut self, start: Location, dest: Location) -> (found: bool)
        requires
            old(self).wf(),
            old(self).is_reset(),
            old(self).in_bounds(start),
            old(self).in_bounds(dest),
        ensures
            final(self).wf(),
            final(self).same_layout(old(self)),
            found ==> exists|path: Seq<Location>|
                final(self).is_walk(path, start, dest) && path.no_duplicates() && final(self).marks_path(path),
            !found ==> forall|i: int|
                0 <= i < final(self).cells().len() ==> !(#[trigger] final(self).cells()[i]).is_path,
            found <==> old(self).reachable(start, dest),
            start == dest ==> found && forall|i: int|
                0 <= i < final(self).cells().len() ==> !(#[trigger] final(self).cells()[i]).visited,
            !final(self).node_at(dest).visited,
            start != dest ==> final(self).node_at(start).visited,
            final(self).node_at(start).g == Some(0u64),
            final(self).node_at(start).f == Some(Estimate { steps: 0, dist_sq: dist_sq_spec(start, dest) as u64 }),
            forall|i: int|
                0 <= i < final(self).cells().len() ==> {
                    let nd = #[trigger] final(self).cells()[i];
                    &&& (nd.g is Some <==> nd.f is Some)
                    &&& nd.f matches Some(e) ==> nd.g == Some(e.steps)
                },
    {
        let ghost n = self.nodes@.len() as int;
        let start_index = self.get_node_index(start);
        let dest_index = self.get_node_index(dest);
        proof {
            let w = self.view_width();
            let h = self.view_height();
            assert(n <= 0x4000_0000);
            self.lemma_dist_bound(start, dest);
        }
        let mut node = self.nodes[start_index];
        node.g = Some(0);
        node.f = Some(Estimate { steps: 0, dist_sq: Location::dist(start, dest).squared });
        self.nodes.set(start_index, node);
        let mut open_set: Vec<usize> = Vec::new();
        open_set.push(start_index);
        let ghost mut pushed: Set<int> = Set::empty();
        let ghost mut k: int = 0;
        let ghost s = start_index as int;
        let ghost d = dest_index as int;
        proof {
            assert(open_set@ =~= seq![start_index]);
            assert forall|i: int| 0 <= i < n implies #[trigger] self.node_ok(i, s, k) by {
                assert(is_cleared(old(self).cells()[i]));
            }
            lemma_int_range(0, n);
            assert forall|i: int|
                0 <= i < n && (#[trigger] self.nodes@[i]).g is Some && !self.nodes@[i].is_wall
                    implies self.nodes@[i].visited || open_set@.contains(i as usize) by {
                assert(is_cleared(old(self).cells()[i]));
                assert(open_set@[0] == start_index);
            }
            assert forall|i: int| 0 <= i < n implies !(#[trigger] self.nodes@[i]).visited by {
                assert(is_cleared(old(self).cells()[i]));
            }
        }
        while open_set.len() > 0
            invariant
                self.search_inv(open_set@, pushed, k, s, d),
                self.same_layout(old(self)),
                n == self.nodes@.len(),
                n <= 0x4000_0000,
                s == self.index_of(start),
                d == self.index_of(dest),
                s == start_index,
                d == dest_index,
                self.in_bounds(start),
                self.in_bounds(dest),
                start == dest ==> k == 0,
                self.closed_inv(open_set@, -1),
                self.nodes@[s].f == Some(Estimate { steps: 0, dist_sq: dist_sq_spec(start, dest) as u64 }),
            decreases n + 1 - k,
        {
            proof {
                lemma_int_range(0, n);
                lemma_len_subset(pushed, set_int_range(0, n));
                assert forall|j: int| 0 <= j < open_set@.len() implies #[trigger] open_set@[j] < self.nodes@.len()
                    && (self.nodes@[open_set@[j] as int].f matches Some(e) ==> e.bounded()) by {
                    assert(self.node_ok(open_set@[j] as int, s, k));
                }
            }
            let pos = self.select_min(&open_set);
            let ghost open_before = open_set@;
            let ghost nodes_before = self.nodes@;
            let ghost prev = *self;
            let cur_index = open_set.remove(pos);
            if cur_index == dest_index {
                let ghost open = open_before;
                proof {
                    assert(open_before[pos as int] == cur_index);
                    self.lemma_index(start);
                    self.lemma_index(dest);
                }
                let ghost pre = *self;
                let Ghost(path) = self.backtrack_path(start, dest, Ghost(open), Ghost(pushed), Ghost(k), Ghost(d));
                proof {
                    if start == dest {
                        assert forall|i: int| 0 <= i < self.cells().len() implies !(#[trigger] self.cells()[i]).visited by {
                            assert(pre.node_ok(i, s, k));
                        }
                    }
                    lemma_walk_same_layout(*self, *old(self), path, start, dest);
                    self.lemma_index(start);
                    self.lemma_index(dest);
                    assert(pre.nodes@[s] == pre.nodes@[s]);
                    assert(start != dest ==> s != d);
                    assert forall|i: int| 0 <= i < self.cells().len() implies {
                        let nd = #[trigger] self.cells()[i];
                        &&& (nd.g is Some <==> nd.f is Some)
                        &&& nd.f matches Some(e) ==> nd.g == Some(e.steps)
                    } by {
                        assert(pre.node_ok(i, s, k));
                    }
                    assert(old(self).is_walk(path, start, dest));
                }
                return true;
            }
            let cur_loc = self.nodes[cur_index].loc;
            let mut node = self.nodes[cur_index];
            node.visited = true;
            self.nodes.set(cur_index, node);
            proof {
                assert(k == 0 ==> cur_index == start_index);
                assert forall|j: int| 0 <= j < open_set@.len() implies #[trigger] open_set@[j] == open_before[
                    if j < pos { j } else { j + 1 }] by {}
                assert forall|j: int| 0 <= j < open_set@.len() implies {
                    let c = #[trigger] open_set@[j];
                    &&& c < n
                    &&& (c == s || !self.nodes@[c as int].is_wall)
                    &&& self.nodes@[c as int].g is Some
                } by {
                    let jj = if j < pos { j } else { j + 1 };
                    assert(open_set@[j] == open_before[jj]);
                }
                assert forall|i: int| #[trigger] pushed.contains(i) implies self.nodes@[i].visited
                    || open_set@.contains(i as usize) by {
                    if i != cur_index as int {
                        assert(nodes_before[i].visited || open_before.contains(i as usize));
                        if !nodes_before[i].visited {
                            let j = choose|j: int| 0 <= j < open_before.len() && open_before[j] == i as usize;
                            if j < pos {
                                assert(open_set@[j] == i as usize);
                            } else {
                                assert(j != pos);
                                assert(open_set@[j - 1] == i as usize);
                            }
                        }
                    }
                }
                assert forall|i: int| 0 <= i < n implies #[trigger] self.node_ok(i, s, k + 1) by {
                    assert(prev.node_ok(i, s, k));
                    assert(nodes_before[i].g is Some ==> nodes_before[i].g.unwrap() <= k);
                    if i == cur_index as int {
                        assert(open_before[pos as int] == cur_index);
                    }
                    let nd = nodes_before[i];
                    if let Some(p) = nd.parent {
                        self.lemma_index(p);
                        assert(prev.node_ok(prev.index_of(p), s, k));
                    }
                    assert(nd.visited ==> (i == s || !nd.is_wall) && nd.g is Some);
                }
                assert(self.search_inv(open_set@, pushed, k + 1, s, d));
                assert(prev.node_ok(cur_index as int, s, k));
                assert(open_before[pos as int] == cur_index);
                assert(self.nodes@[cur_index as int].g.unwrap() <= k);
                lemma_index_bijection(self.view_width(), self.view_height(), cur_loc, cur_index as int);
                assert forall|i: int|
                    0 <= i < n && (#[trigger] self.nodes@[i]).visited && i != cur_index as int
                        implies self.neighbors_reached(self.nodes@[i].loc) by {
                    assert(prev.nodes@[i].visited);
                    assert(prev.neighbors_reached(prev.nodes@[i].loc));
                    assert forall|m: Location| self.in_bounds(m) && #[trigger] adjacent(self.nodes@[i].loc, m)
                        implies self.node_at(m).g is Some by {
                        assert(prev.node_at(m).g is Some);
                        prev.lemma_index(m);
                    }
                }
                assert forall|i: int|
                    0 <= i < n && (#[trigger] self.nodes@[i]).g is Some && !self.nodes@[i].is_wall
                        implies self.nodes@[i].visited || open_set@.contains(i as usize) by {
                    if i != cur_index as int {
                        assert(prev.nodes@[i] == self.nodes@[i]);
                        if !self.nodes@[i].visited {
                            assert(open_before.contains(i as usize));
                            let j = choose|j: int| 0 <= j < open_before.len() && open_before[j] == i as usize;
                            if j < pos {
                                assert(open_set@[j] == i as usize);
                            } else {
                                assert(j != pos);
                                assert(open_set@[j - 1] == i as usize);
                            }
                        }
                    }
                }
                assert(self.closed_inv(open_set@, cur_index as int));
            }
            let col = cur_loc.0;
            let row = cur_loc.1;
            let ghost west = Location((col - 1) as i32, row);
            let ghost north = Location(col, (row - 1) as i32);
            let ghost south = Location(col, (row + 1) as i32);
            let ghost east = Location((col + 1) as i32, row);
            if col > 0 {
                let Ghost(p) = self.relax(&mut open_set, cur_index, Location(col - 1, row), dest, Ghost(s), Ghost(k + 1), Ghost(pushed));
                proof { pushed = p; }
            }
            let ghost s1 = *self;
            if row > 0 {
                let Ghost(p) = self.relax(&mut open_set, cur_index, Location(col, row - 1), dest, Ghost(s), Ghost(k + 1), Ghost(pushed));
                proof { pushed = p; }
            }
            let ghost s2 = *self;
            if row < self.height - 1 {
                let Ghost(p) = self.relax(&mut open_set, cur_index, Location(col, row + 1), dest, Ghost(s), Ghost(k + 1), Ghost(pushed));
                proof { pushed = p; }
            }
            let ghost s3 = *self;
            if col < self.width - 1 {
                let Ghost(p) = self.relax(&mut open_set, cur_index, Location(col + 1, row), dest, Ghost(s), Ghost(k + 1), Ghost(pushed));
                proof { pushed = p; }
            }
            proof {
                if self.in_bounds(west) {
                    assert(s1.node_at(west).g is Some);
                    assert(s2.node_at(west).g is Some);
                    assert(s3.node_at(west).g is Some);
                    assert(self.node_at(west).g is Some);
                }
                if self.in_bounds(north) {
                    assert(s2.node_at(north).g is Some);
                    assert(s3.node_at(north).g is Some);
                    assert(self.node_at(north).g is Some);
                }
                if self.in_bounds(south) {
                    assert(s3.node_at(south).g is Some);
                    assert(self.node_at(south).g is Some);
                }
                assert forall|m: Location| self.in_bounds(m) && #[trigger] adjacent(cur_loc, m)
                    implies self.node_at(m).g is Some by {
                    if m == west {
                    } else if m == north {
                    } else if m == south {
                    } else {
                        assert(m == east);
                    }
                }
                assert(self.nodes@[cur_index as int].loc == cur_loc);
                assert(self.closed_inv(open_set@, -1));
                k = k + 1;
                lemma_len_subset(pushed, set_int_range(0, n));
            }
        }
        proof {
            assert forall|i: int| 0 <= i < self.cells().len() implies !(#[trigger] self.cells()[i]).is_path by {
                assert(self.node_ok(i, s, k));
            }
            self.lemma_index(start);
            self.lemma_index(dest);
            assert forall|i: int| 0 <= i < self.cells().len() implies {
                let nd = #[trigger] self.cells()[i];
                &&& (nd.g is Some <==> nd.f is Some)
                &&& nd.f matches Some(e) ==> nd.g == Some(e.steps)
            } by {
                assert(self.node_ok(i, s, k));
            }
            if old(self).reachable(start, dest) {
                let path = choose|path: Seq<Location>| old(self).is_walk(path, start, dest);
                lemma_walk_same_layout(*old(self), *self, path, start, dest);
                self.lemma_index(start);
                assert(open_set@ =~= Seq::<usize>::empty());
                self.lemma_walk_expanded(path, start, dest, path.len() - 1);
                self.lemma_index(dest);
            }
        }
        false
    }
}

/// The character that shows a node in the text dump.
pub open spec fn cell_char(nd: Node) -> char {
    if nd.is_path {
        'x'
    } else if nd.is_wall {
        '-'
    } else {
        '.'
    }
}

/// The characters of the first `len` nodes of row `y` on a grid `w` cells wide.
pub open spec fn row_spec(cells: Seq<Node>, w: int, y: int, len: int) -> Seq<char>
    decreases len,
{
    if len <= 0 {
        Seq::empty()
    } else {
        row_spec(cells, w, y, len - 1).push(cell_char(cells[y * w + len - 1]))
    }
}

/// The text dump of the first `rows` rows of a grid `w` cells wide: each row's
/// characters followed by a line break.
pub open spec fn dump_spec(cells: Seq<Node>, w: int, rows: int) -> Seq<char>
    decreases rows,
{
    if rows <= 0 {
        Seq::empty()
    } else {
        (dump_spec(cells, w, rows - 1) + row_spec(cells, w, rows - 1, w)).push('\n')
    }
}

/// Every walk is at least as long as the Manhattan distance between its ends.
pub proof fn lemma_walk_at_least_manhattan(grid: Grid, path: Seq<Location>, start: Location, dest: Location)
    requires
        grid.is_walk(path, start, dest),
    ensures
        path.len() - 1 >= abs_int(dest.0 - start.0) + abs_int(dest.1 - start.1),
    decreases path.len(),
{
    if path.len() > 1 {
        let prefix = path.drop_last();
        let mid = prefix[prefix.len() - 1];
        assert(adjacent(path[path.len() - 2], path[path.len() - 1]));
        assert(grid.is_walk(prefix, start, mid));
        lemma_walk_at_least_manhattan(grid, prefix, start, mid);
    }
}

/// On a grid without walls every position can be reached from every other, so a
/// search between two positions on it always succeeds; and any walk it marks is at
/// least as long as the Manhattan distance.
#[verifier::rlimit(50)]
pub proof fn lemma_open_grid_reachable(grid: Grid, start: Location, dest: Location)
    requires
        grid.wf(),
        grid.in_bounds(start),
        grid.in_bounds(dest),
        forall|i: int| 0 <= i < grid.cells().len() ==> !(#[trigger] grid.cells()[i]).is_wall,
    ensures
        grid.reachable(start, dest),
        forall|path: Seq<Location>| #[trigger] grid.is_walk(path, start, dest)
            ==> path.len() - 1 >= abs_int(dest.0 - start.0) + abs_int(dest.1 - start.1),
{
    let ax = abs_int(dest.0 - start.0);
    let ay = abs_int(dest.1 - start.1);
    let path = Seq::new((ax + ay + 1) as nat, |k: int| l_walk_step(start, dest, k));
    assert forall|k: int| 0 <= k < path.len() implies grid.in_bounds(#[trigger] path[k]) by {}
    assert forall|k: int| 1 <= k < path.len() implies !grid.node_at(#[trigger] path[k]).is_wall by {
        grid.lemma_index(path[k]);
    }
    assert forall|k: int| 0 <= k < path.len() - 1 implies adjacent(#[trigger] path[k], path[k + 1]) by {}
    assert(path[path.len() - 1] == dest);
    assert(grid.is_walk(path, start, dest));
    assert forall|path: Seq<Location>| #[trigger] grid.is_walk(path, start, dest)
        implies path.len() - 1 >= abs_int(dest.0 - start.0) + abs_int(dest.1 - start.1) by {
        lemma_walk_at_least_manhattan(grid, path, start, dest);
    }
}

/// Position `k` of the walk that first moves along the row from `start` to the
/// column of `dest`, then along that column.
pub open spec fn l_walk_step(start: Location, dest: Location, k: int) -> Location {
    let ax = abs_int(dest.0 - start.0);
    if k <= ax {
        Location((if dest.0 >= start.0 { start.0 + k } else { start.0 - k }) as i32, start.1)
    } else {
        let j = k - ax;
        Location(dest.0, (if dest.1 >= start.1 { start.1 + j } else { start.1 - j }) as i32)
    }
}

pub open spec fn abs_int(v: int) -> int {
    if v < 0 {
        -v
    } else {
        v
    }
}

/// A walk stays a walk on any grid with the same layout.
pub proof fn lemma_walk_same_layout(a: Grid, b: Grid, path: Seq<Location>, start: Location, dest: Location)
    requires
        a.wf(),
        b.same_layout(&a),
        a.is_walk(path, start, dest),
    ensures
        b.is_walk(path, start, dest),
{
    assert forall|m: int| 1 <= m < path.len() implies !b.node_at(#[trigger] path[m]).is_wall by {
        a.lemma_index(path[m]);
    }
}

impl Grid {
    /// One line per grid row, one character per node: `x` on the path, `-` a wall,
    /// `.` otherwise.
    pub fn text_dump(&self) -> (r: Vec<char>)
        requires
            self.wf(),
        ensures
            r@ == dump_spec(self.cells(), self.view_width(), self.view_height()),
    {
        let mut r: Vec<char> = Vec::new();
        let mut y: i32 = 0;
        while y < self.height
            invariant
                0 <= y <= self.view_height(),
                self.wf(),
                r@ == dump_spec(self.cells(), self.view_width(), y as int),
            decreases self.view_height() - y,
        {
            let ghost before = r@;
            let mut x: i32 = 0;
            while x < self.width
                invariant
                    0 <= x <= self.view_width(),
                    0 <= y < self.view_height(),
                    self.wf(),
                    r@ == before + row_spec(self.cells(), self.view_width(), y as int, x as int),
                decreases self.view_width() - x,
            {
                let i = self.get_node_index(Location(x, y));
                let nd = &self.nodes[i];
                let c = if nd.is_path {
                    'x'
                } else if nd.is_wall {
                    '-'
                } else {
                    '.'
                };
                r.push(c);
                proof {
                    assert(r@ =~= before + row_spec(self.cells(), self.view_width(), y as int, x + 1));
                }
                x = x + 1;
            }
            r.push('\n');
            y = y + 1;
        }
        r
    }
}

/// Relies on rand's `thread_rng` and `Rng::gen_range(low, high)`, which returns a
/// value in `[low, high)`: here a number from 1 to 100. `thread_rng` panics only when
/// the operating system's random source cannot be opened.
#[verifier::external_body]
fn roll_percentile() -> (r: u8)
    ensures
        1 <= r <= 100,
{
    rand::Rng::gen_range(&mut rand::thread_rng(), 1u8, 101u8)
}

} // verus!
