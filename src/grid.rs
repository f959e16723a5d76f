//! Grid model: terrain, directions, positions, cells and the dungeon itself.
use vstd::prelude::*;

verus! {

/// Terrain of one cell; it never changes after loading.
#[derive(Clone, Copy, Debug, PartialEq, Eq, Structural)]
pub enum State {
    Empty,
    Aisle,
    Goal,
    Start,
    Wall,
}

/// A unit move on the grid; `N` is "no move" (a cell not reached from anywhere).
#[derive(Clone, Copy, Debug, PartialEq, Eq, Structural)]
pub enum Direction {
    N,
    Up,
    Down,
    Left,
    Right,
}

/// A position: column `x`, row `y`, both counted from the top-left corner.
#[derive(Clone, Copy, Debug, PartialEq, Eq, Structural)]
pub struct Point {
    pub x: usize,
    pub y: usize,
}

/// One cell with its search state.
#[derive(Clone, Copy, Debug, PartialEq, Eq, Structural)]
pub struct Field {
    pub point: Point,
    pub state: State,
    pub came_from: Direction,
    pub f_cost: Option<usize>,
    pub g_cost: Option<usize>,
}

/// The grid, stored row by row in one vector: the cell at `(x, y)` is `cells[y * width + x]`.
pub struct Dungeon {
    pub cells: Vec<Field>,
    pub width: usize,
    pub height: usize,
}

pub open spec fn delta(d: Direction) -> (int, int) {
    match d {
        Direction::N => (0, 0),
        Direction::Up => (0, -1),
        Direction::Down => (0, 1),
        Direction::Left => (-1, 0),
        Direction::Right => (1, 0),
    }
}

/// The position reached from `p` by one move `d`.
pub open spec fn moved(p: (int, int), d: Direction) -> (int, int) {
    (p.0 + delta(d).0, p.1 + delta(d).1)
}

pub open spec fn opposite(d: Direction) -> Direction {
    match d {
        Direction::N => Direction::N,
        Direction::Up => Direction::Down,
        Direction::Down => Direction::Up,
        Direction::Left => Direction::Right,
        Direction::Right => Direction::Left,
    }
}

pub open spec fn abs(a: int) -> int {
    if a < 0 { -a } else { a }
}

pub open spec fn manhattan_spec(a: (int, int), b: (int, int)) -> int {
    abs(a.0 - b.0) + abs(a.1 - b.1)
}

impl Point {
    pub open spec fn pos(self) -> (int, int) {
        (self.x as int, self.y as int)
    }
}

/// The signed offset of one move in `direction`.
pub fn from_direction(direction: Direction) -> (r: (isize, isize))
    ensures
        (r.0 as int, r.1 as int) == delta(direction),
{
    match direction {
        Direction::Up => (0, -1),
        Direction::Down => (0, 1),
        Direction::Left => (-1, 0),
        Direction::Right => (1, 0),
        Direction::N => (0, 0),
    }
}

/// Manhattan distance between two positions.
pub fn manhattan(src: &Point, dst: &Point) -> (r: usize)
    requires
        manhattan_spec(src.pos(), dst.pos()) <= usize::MAX,
    ensures
        r == manhattan_spec(src.pos(), dst.pos()),
{
    let dx: usize = if src.x < dst.x { dst.x - src.x } else { src.x - dst.x };
    let dy: usize = if src.y < dst.y { dst.y - src.y } else { src.y - dst.y };
    dx + dy
}

impl Field {
    pub fn x(&self) -> (r: usize)
        ensures
            r == self.point.x,
    {
        self.point.x
    }

    pub fn y(&self) -> (r: usize)
        ensures
            r == self.point.y,
    {
        self.point.y
    }
}

/// Row-major index of a position.
pub open spec fn index_of(w: int, p: (int, int)) -> int {
    p.1 * w + p.0
}

pub proof fn lemma_index_bounds(w: int, h: int, x: int, y: int)
    requires
        0 <= x < w,
        0 <= y < h,
    ensures
        0 <= y * w + x < w * h,
{
    assert(0 <= y * w) by (nonlinear_arith)
        requires
            0 <= y,
            0 <= w,
    ;
    assert(y * w + w <= w * h) by (nonlinear_arith)
        requires
            0 <= y < h,
            0 <= w,
    ;
}

pub proof fn lemma_index_unique(w: int, x1: int, y1: int, x2: int, y2: int)
    requires
        0 <= x1 < w,
        0 <= x2 < w,
        0 <= y1,
        0 <= y2,
        y1 * w + x1 == y2 * w + x2,
    ensures
        x1 == x2,
        y1 == y2,
{
    if y1 < y2 {
        assert(y1 * w + w <= y2 * w) by (nonlinear_arith)
            requires
                y1 < y2,
                0 <= w,
        ;
    } else if y2 < y1 {
        assert(y2 * w + w <= y1 * w) by (nonlinear_arith)
            requires
                y2 < y1,
                0 <= w,
        ;
    }
}

impl Dungeon {
    pub open spec fn inside(&self, p: (int, int)) -> bool {
        0 <= p.0 < self.width && 0 <= p.1 < self.height
    }

    /// The field at a position of the grid.
    pub open spec fn at(&self, p: (int, int)) -> Field {
        self.cells@[index_of(self.width as int, p)]
    }

    /// Well-formed: one field per position, each stored at its row-major index, and
    /// sizes small enough that every cost fits a `usize`.
    pub open spec fn wf(&self) -> bool {
        &&& self.cells@.len() == self.width * self.height
        &&& self.cells@.len() + self.width + self.height <= usize::MAX
        &&& forall|k: int|
            0 <= k < self.cells@.len() ==> {
                let p = #[trigger] self.cells@[k].point;
                &&& p.x < self.width
                &&& p.y < self.height
                &&& index_of(self.width as int, p.pos()) == k
            }
    }

    pub proof fn lemma_at(&self, p: (int, int))
        requires
            self.wf(),
            self.inside(p),
        ensures
            0 <= index_of(self.width as int, p) < self.cells@.len(),
            self.at(p).point.pos() == p,
    {
        lemma_index_bounds(self.width as int, self.height as int, p.0, p.1);
        let k = index_of(self.width as int, p);
        let q = self.cells@[k].point;
        lemma_index_unique(self.width as int, p.0, p.1, q.x as int, q.y as int);
    }

    pub fn is_inside(&self, target: &Point) -> (r: bool)
        ensures
            r == self.inside(target.pos()),
    {
        target.x < self.width && target.y < self.height
    }

    /// Index of the field at `p`.
    pub fn index(&self, p: Point) -> (k: usize)
        requires
            self.wf(),
            self.inside(p.pos()),
        ensures
            k == index_of(self.width as int, p.pos()),
            k < self.cells@.len(),
            self.cells@[k as int].point == p,
    {
        proof {
            self.lemma_at(p.pos());
        }
        p.y * self.width + p.x
    }

    /// The neighbours of `base` inside the grid, in the order up, down, left, right.
    pub fn next_point(&self, base: Point) -> (r: Vec<Point>)
        ensures
            r@.len() <= 4,
            r@.no_duplicates(),
            forall|i: int|
                0 <= i < r@.len() ==> self.inside((#[trigger] r@[i]).pos()) && manhattan_spec(
                    base.pos(),
                    r@[i].pos(),
                ) == 1,
            forall|d: Direction|
                d != Direction::N && self.inside(#[trigger] moved(base.pos(), d)) ==> exists|i: int|
                    0 <= i < r@.len() && r@[i].pos() == moved(base.pos(), d),
    {
        let mut r: Vec<Point> = Vec::new();
        let ghost mut from: Seq<int> = seq![];
        let all = [Direction::Up, Direction::Down, Direction::Left, Direction::Right];
        let mut j: usize = 0;
        while j < 4
            invariant
                all@ == seq![Direction::Up, Direction::Down, Direction::Left, Direction::Right],
                j <= 4,
                r@.len() <= j,
                from.len() == r@.len(),
                forall|i: int|
                    0 <= i < r@.len() ==> 0 <= #[trigger] from[i] < j && r@[i].pos() == moved(
                        base.pos(),
                        all@[from[i]],
                    ),
                forall|i1: int, i2: int| 0 <= i1 < i2 < r@.len() ==> from[i1] < from[i2],
                forall|i: int|
                    0 <= i < r@.len() ==> self.inside((#[trigger] r@[i]).pos()) && manhattan_spec(
                        base.pos(),
                        r@[i].pos(),
                    ) == 1,
                forall|t: int|
                    0 <= t < j && self.inside(moved(base.pos(), #[trigger] all@[t])) ==> exists|i: int|
                        0 <= i < r@.len() && r@[i].pos() == moved(base.pos(), all@[t]),
            decreases 4 - j,
        {
            let d = all[j];
            let ghost old_r = r@;
            assert(d == all@[j as int] && d != Direction::N);
            match self.step(base, d) {
                Some(q) => {
                    r.push(q);
                    proof {
                        from = from.push(j as int);
                    }
                },
                None => {},
            }
            proof {
                assert forall|t: int| 0 <= t < j + 1 && self.inside(moved(base.pos(), #[trigger] all@[t]))
                    implies exists|i: int| 0 <= i < r@.len() && r@[i].pos() == moved(base.pos(), all@[t]) by {
                    if t < j {
                        let i = choose|i: int| 0 <= i < old_r.len() && old_r[i].pos() == moved(base.pos(), all@[t]);
                        assert(r@[i] == old_r[i]);
                    } else {
                        assert(r@[r@.len() - 1].pos() == moved(base.pos(), all@[t]));
                    }
                }
            }
            j = j + 1;
        }
        proof {
            assert forall|i1: int, i2: int| 0 <= i1 < r@.len() && 0 <= i2 < r@.len() && i1 != i2 implies r@[i1]
                != r@[i2] by {
                assert(from[i1] != from[i2]);
                assert(all@[from[i1]] != all@[from[i2]]);
            }
            assert forall|d: Direction| d != Direction::N && self.inside(#[trigger] moved(base.pos(), d))
                implies exists|i: int| 0 <= i < r@.len() && r@[i].pos() == moved(base.pos(), d) by {
                let t: int = match d {
                    Direction::Up => 0,
                    Direction::Down => 1,
                    Direction::Left => 2,
                    _ => 3,
                };
                assert(all@[t] == d);
            }
        }
        r
    }

    /// The position one move `d` away from `p`, if it lies inside the grid.
    pub fn step(&self, p: Point, d: Direction) -> (r: Option<Point>)
        ensures
            r matches Some(q) ==> q.pos() == moved(p.pos(), d) && self.inside(q.pos()),
            r is None ==> !self.inside(moved(p.pos(), d)),
    {
        match d {
            Direction::N => if p.x < self.width && p.y < self.height { Some(p) } else { None },
            Direction::Up => if p.y > 0 && p.y - 1 < self.height && p.x < self.width {
                Some(Point { x: p.x, y: p.y - 1 })
            } else {
                None
            },
            Direction::Down => if p.y < self.height && p.y + 1 < self.height && p.x < self.width {
                Some(Point { x: p.x, y: p.y + 1 })
            } else {
                None
            },
            Direction::Left => if p.x > 0 && p.x - 1 < self.width && p.y < self.height {
                Some(Point { x: p.x - 1, y: p.y })
            } else {
                None
            },
            Direction::Right => if p.x < self.width && p.x + 1 < self.width && p.y < self.height {
                Some(Point { x: p.x + 1, y: p.y })
            } else {
                None
            },
        }
    }
}


/// How many times `x` occurs in `s`.
pub open spec fn count_of(s: Seq<State>, x: State) -> nat
    decreases s.len(),
{
    if s.len() == 0 {
        0
    } else {
        count_of(s.drop_last(), x) + if s.last() == x { 1nat } else { 0nat }
    }
}

pub proof fn lemma_count_found(s: Seq<State>, x: State, i: int)
    requires
        0 <= i < s.len(),
        s[i] == x,
    ensures
        count_of(s, x) >= 1,
    decreases s.len(),
{
    if i < s.len() - 1 {
        lemma_count_found(s.drop_last(), x, i);
    }
}

pub proof fn lemma_count_two(s: Seq<State>, x: State, i: int, j: int)
    requires
        0 <= i < j < s.len(),
        s[i] == x,
        s[j] == x,
    ensures
        count_of(s, x) >= 2,
    decreases s.len(),
{
    if j == s.len() - 1 {
        lemma_count_found(s.drop_last(), x, i);
    } else {
        lemma_count_two(s.drop_last(), x, i, j);
    }
}

pub proof fn lemma_count_exists(s: Seq<State>, x: State)
    requires
        count_of(s, x) >= 1,
    ensures
        exists|i: int| 0 <= i < s.len() && s[i] == x,
    decreases s.len(),
{
    if s.last() != x {
        lemma_count_exists(s.drop_last(), x);
        let i = choose|i: int| 0 <= i < s.drop_last().len() && s.drop_last()[i] == x;
        assert(s[i] == x);
    } else {
        assert(s[s.len() - 1] == x);
    }
}

impl Dungeon {
    pub open spec fn states(&self) -> Seq<State> {
        self.cells@.map_values(|f: Field| f.state)
    }

    /// A maze to search: well-formed, with exactly one start and exactly one goal.
    pub open spec fn valid_maze(&self) -> bool {
        &&& self.wf()
        &&& count_of(self.states(), State::Start) == 1
        &&& count_of(self.states(), State::Goal) == 1
    }

    /// The position of some cell of terrain `s`; of the only one where there is exactly one.
    pub open spec fn locate(&self, s: State) -> (int, int) {
        let k = choose|k: int| 0 <= k < self.cells@.len() && self.cells@[k].state == s;
        self.cells@[k].point.pos()
    }

    /// A cell whose terrain occurs once in the maze is the one `locate` names.
    pub proof fn lemma_locate(&self, s: State, k: int)
        requires
            self.wf(),
            count_of(self.states(), s) == 1,
            0 <= k < self.cells@.len(),
            self.cells@[k].state == s,
        ensures
            self.locate(s) == self.cells@[k].point.pos(),
            self.inside(self.locate(s)),
            self.at(self.locate(s)).state == s,
    {
        let j = choose|j: int| 0 <= j < self.cells@.len() && self.cells@[j].state == s;
        assert(self.states()[k] == s);
        assert(self.states()[j] == s);
        if j < k {
            lemma_count_two(self.states(), s, j, k);
        } else if k < j {
            lemma_count_two(self.states(), s, k, j);
        }
        self.lemma_at(self.cells@[k].point.pos());
    }

    /// Same size, and the same position and terrain in every cell.
    pub open spec fn same_terrain(&self, other: &Dungeon) -> bool {
        &&& self.width == other.width
        &&& self.height == other.height
        &&& self.cells@.len() == other.cells@.len()
        &&& forall|k: int|
            0 <= k < self.cells@.len() ==> (#[trigger] self.cells@[k]).state
                == other.cells@[k].state && self.cells@[k].point == other.cells@[k].point
    }

    /// A position that a path may step on.
    pub open spec fn passable(&self, p: (int, int)) -> bool {
        self.inside(p) && self.at(p).state != State::Wall
    }

    /// `path` leads from `p` through passable cells only, one unit move at a time.
    pub open spec fn walk_ok(&self, p: (int, int), path: Seq<Direction>) -> bool
        decreases path.len(),
    {
        path.len() == 0 || (path[0] != Direction::N && self.passable(moved(p, path[0]))
            && self.walk_ok(moved(p, path[0]), path.drop_first()))
    }
}

impl Dungeon {
    /// Some walk through passable cells leads from `from` to `to`.
    pub open spec fn reachable(&self, from: (int, int), to: (int, int)) -> bool {
        exists|path: Seq<Direction>| self.walk_ok(from, path) && walk_end(from, path) == to
    }
}

/// Every walk is at least as long as the Manhattan distance between its ends.
pub proof fn lemma_walk_at_least_manhattan(p: (int, int), path: Seq<Direction>)
    ensures
        path.len() >= manhattan_spec(p, walk_end(p, path)),
    decreases path.len(),
{
    if path.len() > 0 {
        lemma_walk_at_least_manhattan(moved(p, path[0]), path.drop_first());
    }
}

/// Where `path` leads from `p`.
pub open spec fn walk_end(p: (int, int), path: Seq<Direction>) -> (int, int)
    decreases path.len(),
{
    if path.len() == 0 {
        p
    } else {
        walk_end(moved(p, path[0]), path.drop_first())
    }
}

} // verus!
