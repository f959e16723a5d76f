//! Best-first search over the grid, one expansion per step, and path reconstruction.
use crate::grid::{
    count_of, delta, index_of, manhattan, manhattan_spec, moved, opposite, walk_end, Direction,
    Dungeon, Field, Point, State,
};
use vstd::prelude::*;
use vstd::set_lib::{lemma_int_range, lemma_len_subset, set_int_range};

verus! {

/// A frontier entry: the cell at `index`, with its total estimate `f` and heuristic `h`.
#[derive(Clone, Copy, Debug, PartialEq, Eq, Structural)]
pub struct Entry {
    pub f: usize,
    pub h: usize,
    pub index: usize,
}

/// Strict priority order: lower `f` first, then lower `h`.
pub open spec fn before(a: Entry, b: Entry) -> bool {
    a.f < b.f || (a.f == b.f && a.h < b.h)
}

/// Entry `i` is the first of `s` that no entry comes before.
pub open spec fn first_min(s: Seq<Entry>, i: int) -> bool {
    &&& 0 <= i < s.len()
    &&& forall|j: int| 0 <= j < i ==> before(s[i], #[trigger] s[j])
    &&& forall|j: int| i < j < s.len() ==> !before(#[trigger] s[j], s[i])
}

/// Candidate cells in insertion order. `pop_min` takes the entry of lowest `f`, then
/// lowest `h`, and among entries equal in both the one inserted first.
pub struct Frontier {
    pub entries: Vec<Entry>,
}

impl Frontier {
    pub fn new() -> (r: Frontier)
        ensures
            r.entries@ == Seq::<Entry>::empty(),
    {
        Frontier { entries: Vec::new() }
    }

    pub fn push(&mut self, e: Entry)
        ensures
            final(self).entries@ == old(self).entries@.push(e),
    {
        self.entries.push(e);
    }

    pub fn is_empty(&self) -> (r: bool)
        ensures
            r == (self.entries@.len() == 0),
    {
        self.entries.len() == 0
    }

    pub fn pop_min(&mut self) -> (r: Entry)
        requires
            old(self).entries@.len() > 0,
        ensures
            exists|i: int|
                first_min(old(self).entries@, i) && r == old(self).entries@[i]
                    && final(self).entries@ == old(self).entries@.remove(i),
    {
        let mut best: usize = 0;
        let mut i: usize = 1;
        while i < self.entries.len()
            invariant
                0 <= best < i <= self.entries@.len(),
                forall|j: int| 0 <= j < best ==> before(self.entries@[best as int], #[trigger] self.entries@[j]),
                forall|j: int| best < j < i ==> !before(#[trigger] self.entries@[j], self.entries@[best as int]),
            decreases self.entries@.len() - i,
        {
            if before_exec(&self.entries[i], &self.entries[best]) {
                best = i;
            }
            i = i + 1;
        }
        let r = self.entries.remove(best);
        r
    }
}

fn before_exec(a: &Entry, b: &Entry) -> (r: bool)
    ensures
        r == before(*a, *b),
{
    a.f < b.f || (a.f == b.f && a.h < b.h)
}

fn reverse(d: Direction) -> (r: Direction)
    ensures
        r == opposite(d),
{
    match d {
        Direction::N => Direction::N,
        Direction::Up => Direction::Down,
        Direction::Down => Direction::Up,
        Direction::Left => Direction::Right,
        Direction::Right => Direction::Left,
    }
}

/// What one step of the search ended in.
pub enum Outcome {
    Running,
    Reached(Vec<Direction>),
    Unreachable,
}

/// A search in progress over a maze that it owns.
pub struct Search {
    dungeon: Dungeon,
    frontier: Frontier,
    start: Point,
    goal: Point,
    start_index: usize,
    discovered: usize,
    closed: Ghost<Set<int>>,
}

pub open spec fn has_cost(f: Field) -> bool {
    f.g_cost is Some
}

impl Search {
    pub closed spec fn maze(&self) -> &Dungeon {
        &self.dungeon
    }

    /// The frontier's entries, in insertion order.
    pub closed spec fn frontier_view(&self) -> Seq<Entry> {
        self.frontier.entries@
    }

    pub closed spec fn start_pos(&self) -> (int, int) {
        self.start.pos()
    }

    pub closed spec fn goal_pos(&self) -> (int, int) {
        self.goal.pos()
    }

    pub closed spec fn measure(&self) -> nat {
        (2 * (self.dungeon.cells@.len() - self.discovered) + self.frontier.entries@.len()) as nat
    }

    closed spec fn visited(&self) -> Set<int> {
        Set::new(|k: int| 0 <= k < self.dungeon.cells@.len() && has_cost(self.dungeon.cells@[k]))
    }

    /// Each costed cell that is not the start was reached by one move from a costed cell
    /// whose cost is one less.
    closed spec fn linked(&self, k: int) -> bool {
        let f = self.dungeon.cells@[k];
        let back = moved(f.point.pos(), opposite(f.came_from));
        &&& f.came_from != Direction::N
        &&& f.g_cost->0 >= 1
        &&& self.dungeon.inside(back)
        &&& self.dungeon.at(back).g_cost == Some((f.g_cost->0 - 1) as usize)
    }

    /// Every passable neighbour of cell `k` has a cost.
    closed spec fn expanded(&self, k: int) -> bool {
        let p = self.dungeon.cells@[k].point.pos();
        forall|d: Direction|
            d != Direction::N && self.dungeon.passable(#[trigger] moved(p, d)) ==> has_cost(
                self.dungeon.at(moved(p, d)),
            )
    }

    closed spec fn in_frontier(&self, k: int) -> bool {
        exists|j: int| 0 <= j < self.frontier.entries@.len() && (#[trigger] self.frontier.entries@[j]).index == k
    }

    /// While the goal has not been taken from the frontier, a cost on it means it waits there.
    pub closed spec fn goal_pending(&self) -> bool {
        has_cost(self.dungeon.at(self.goal.pos())) ==> self.in_frontier(index_of(self.dungeon.width as int, self.goal.pos()))
    }

    pub closed spec fn inv(&self) -> bool {
        self.inv_but(-1)
    }

    /// The invariant, where cell `skip` may have left the frontier without being expanded.
    closed spec fn base_inv(&self) -> bool {
        let d = &self.dungeon;
        let cells = d.cells@;
        &&& d.wf()
        &&& d.inside(self.start.pos())
        &&& d.inside(self.goal.pos())
        &&& d.at(self.goal.pos()).state == State::Goal
        &&& forall|k: int|
            0 <= k < cells.len() && (#[trigger] cells[k]).state == State::Goal ==> cells[k].point == self.goal
        &&& self.start_index < cells.len()
        &&& self.start_index == index_of(d.width as int, self.start.pos())
        &&& cells[self.start_index as int].g_cost == Some(0usize)
        &&& forall|k: int| 0 <= k < cells.len() ==> (#[trigger] cells[k].g_cost is Some) == (cells[k].f_cost is Some)
        &&& forall|k: int|
            0 <= k < cells.len() && has_cost(#[trigger] cells[k]) ==> cells[k].state != State::Wall
                && cells[k].g_cost->0 < self.discovered
        &&& forall|k: int|
            0 <= k < cells.len() && k != self.start_index && has_cost(#[trigger] cells[k]) ==> self.linked(k)
        &&& self.visited().finite()
        &&& self.visited().len() == self.discovered
        &&& self.discovered <= cells.len()
        &&& forall|j: int|
            0 <= j < self.frontier.entries@.len() ==> {
                let e = #[trigger] self.frontier.entries@[j];
                e.index < cells.len() && has_cost(cells[e.index as int])
            }
    }

    closed spec fn closure_ok(&self, closed: Set<int>, skip: int) -> bool {
        let cells = self.dungeon.cells@;
        &&& forall|k: int|
            #[trigger] closed.contains(k) ==> 0 <= k < cells.len() && has_cost(cells[k]) && self.expanded(k)
        &&& forall|k: int|
            0 <= k < cells.len() && has_cost(#[trigger] cells[k]) && !closed.contains(k) && k != skip
                ==> self.in_frontier(k)
                || cells[k].state == State::Goal
    }

    closed spec fn inv_but(&self, skip: int) -> bool {
        self.base_inv() && self.closure_ok(self.closed@, skip)
    }

    proof fn lemma_same_parts(a: &Search, b: &Search, closed: Set<int>, skip: int)
        requires
            a.dungeon == b.dungeon,
            a.frontier == b.frontier,
            a.start == b.start,
            a.goal == b.goal,
            a.start_index == b.start_index,
            a.discovered == b.discovered,
            a.base_inv(),
            a.closure_ok(closed, skip),
        ensures
            b.base_inv(),
            b.closure_ok(closed, skip),
    {
        assert(a.visited() == b.visited());
        assert forall|k: int| #[trigger] closed.contains(k) implies a.expanded(k) == b.expanded(k) by {
        }
        assert forall|k: int| a.in_frontier(k) == b.in_frontier(k) by {
        }
        assert forall|k: int| a.linked(k) == b.linked(k) by {
        }
    }

    /// With the frontier empty and no cost on the goal, every walk from a costed cell
    /// ends on a costed cell.
    proof fn lemma_walk_costed(&self, p: (int, int), path: Seq<Direction>)
        requires
            self.inv(),
            self.frontier.entries@.len() == 0,
            !has_cost(self.dungeon.at(self.goal.pos())),
            self.dungeon.inside(p),
            has_cost(self.dungeon.at(p)),
            self.dungeon.walk_ok(p, path),
        ensures
            has_cost(self.dungeon.at(walk_end(p, path))),
        decreases path.len(),
    {
        if path.len() > 0 {
            self.dungeon.lemma_at(p);
            self.dungeon.lemma_at(self.goal.pos());
            let k = index_of(self.dungeon.width as int, p);
            assert(!self.in_frontier(k));
            if self.dungeon.cells@[k].state == State::Goal {
                assert(self.dungeon.cells@[k].point == self.goal);
            }
            assert(self.closed@.contains(k));
            assert(self.expanded(k));
            let q = moved(p, path[0]);
            assert(has_cost(self.dungeon.at(q)));
            self.lemma_walk_costed(q, path.drop_first());
        }
    }

    /// An empty frontier, with the goal never costed, means no walk leads from the start
    /// to the goal.
    proof fn lemma_no_walk(&self)
        requires
            self.inv(),
            self.frontier.entries@.len() == 0,
            self.goal_pending(),
        ensures
            !self.dungeon.reachable(self.start.pos(), self.goal.pos()),
    {
        self.dungeon.lemma_at(self.goal.pos());
        self.dungeon.lemma_at(self.start.pos());
        let gk = index_of(self.dungeon.width as int, self.goal.pos());
        assert(!self.in_frontier(gk));
        if self.dungeon.reachable(self.start.pos(), self.goal.pos()) {
            let path = choose|path: Seq<Direction>|
                self.dungeon.walk_ok(self.start.pos(), path) && walk_end(self.start.pos(), path)
                    == self.goal.pos();
            self.lemma_walk_costed(self.start.pos(), path);
        }
    }

    proof fn lemma_close(&self, from: int)
        requires
            self.closure_ok(self.closed@, from),
            0 <= from < self.dungeon.cells@.len(),
            has_cost(self.dungeon.cells@[from]),
            self.expanded(from),
        ensures
            self.closure_ok(self.closed@.insert(from), -1),
    {
    }

    proof fn lemma_discovered_bound(&self, visited: Set<int>)
        requires
            visited == Set::new(|k: int| 0 <= k < self.dungeon.cells@.len() && has_cost(self.dungeon.cells@[k])),
        ensures
            visited.finite(),
            visited.len() <= self.dungeon.cells@.len(),
    {
        lemma_int_range(0, self.dungeon.cells@.len() as int);
        lemma_len_subset(visited, set_int_range(0, self.dungeon.cells@.len() as int));
    }
}


impl Search {
    /// Starts a search: every cost is cleared, then the start gets cost zero and is the
    /// only frontier entry.
    pub fn new(dungeon: Dungeon) -> (r: Search)
        requires
            dungeon.valid_maze(),
        ensures
            r.inv(),
            r.maze().same_terrain(&dungeon),
            r.start_pos() == dungeon.locate(State::Start),
            r.goal_pos() == dungeon.locate(State::Goal),
            r.goal_pending(),
    {
        let ghost orig = dungeon;
        let mut d = dungeon;
        let mut i: usize = 0;
        let mut si: usize = 0;
        let mut gi: usize = 0;
        let mut found_start = false;
        let mut found_goal = false;
        while i < d.cells.len()
            invariant
                d.width == orig.width,
                d.height == orig.height,
                d.cells@.len() == orig.cells@.len(),
                i <= d.cells@.len(),
                forall|k: int|
                    0 <= k < d.cells@.len() ==> (#[trigger] d.cells@[k]).state == orig.cells@[k].state
                        && d.cells@[k].point == orig.cells@[k].point,
                forall|k: int|
                    0 <= k < i ==> (#[trigger] d.cells@[k]).g_cost is None && d.cells@[k].f_cost is None,
                found_start ==> si < d.cells@.len() && d.cells@[si as int].state == State::Start,
                !found_start ==> forall|k: int| 0 <= k < i ==> (#[trigger] d.cells@[k]).state != State::Start,
                found_goal ==> gi < d.cells@.len() && d.cells@[gi as int].state == State::Goal,
                !found_goal ==> forall|k: int| 0 <= k < i ==> (#[trigger] d.cells@[k]).state != State::Goal,
            decreases d.cells@.len() - i,
        {
            let mut f = d.cells[i];
            if f.state == State::Start {
                si = i;
                found_start = true;
            }
            if f.state == State::Goal {
                gi = i;
                found_goal = true;
            }
            f.g_cost = None;
            f.f_cost = None;
            f.came_from = Direction::N;
            d.cells.set(i, f);
            i = i + 1;
        }
        proof {
            if !found_start {
                lemma_count_exists_in(&orig, State::Start);
                let k = choose|k: int| 0 <= k < orig.cells@.len() && (#[trigger] orig.cells@[k]).state == State::Start;
                assert(d.cells@[k].state == State::Start);
            }
            if !found_goal {
                lemma_count_exists_in(&orig, State::Goal);
                let k = choose|k: int| 0 <= k < orig.cells@.len() && (#[trigger] orig.cells@[k]).state == State::Goal;
                assert(d.cells@[k].state == State::Goal);
            }
            assert(orig.states()[si as int] == State::Start);
            orig.lemma_locate(State::Start, si as int);
            orig.lemma_locate(State::Goal, gi as int);
            assert forall|k: int|
                0 <= k < d.cells@.len() && (#[trigger] d.cells@[k]).state == State::Goal implies k == gi by {
                assert(orig.states()[k] == State::Goal);
                assert(orig.states()[gi as int] == State::Goal);
                if k < gi {
                    crate::grid::lemma_count_two(orig.states(), State::Goal, k, gi as int);
                } else if gi < k {
                    crate::grid::lemma_count_two(orig.states(), State::Goal, gi as int, k);
                }
            }
        }
        let start = d.cells[si].point;
        let goal = d.cells[gi].point;
        let h = manhattan(&start, &goal);
        let mut first = d.cells[si];
        first.g_cost = Some(0);
        first.f_cost = Some(h);
        d.cells.set(si, first);
        let mut frontier = Frontier::new();
        frontier.push(Entry { f: h, h, index: si });
        let r = Search {
            dungeon: d,
            frontier,
            start,
            goal,
            start_index: si,
            discovered: 1,
            closed: Ghost(Set::empty()),
        };
        proof {
            assert(r.visited() =~= set![si as int]);
            assert(r.frontier.entries@[0].index == si);
            assert(r.in_frontier(si as int));
            assert forall|k: int|
                0 <= k < r.dungeon.cells@.len() && (#[trigger] r.dungeon.cells@[k]).state
                    == State::Goal implies r.dungeon.cells@[k].point == r.goal by {
                if k != si {
                    assert(d.cells@[k].state == State::Goal);
                }
            }
        }
        r
    }

    pub fn dungeon(&self) -> (r: &Dungeon)
        ensures
            r == self.maze(),
    {
        &self.dungeon
    }

    pub fn into_dungeon(self) -> (r: Dungeon)
        ensures
            r == *self.maze(),
    {
        self.dungeon
    }

    /// Looks at the neighbour of cell `from` in direction `d`: if it is inside the grid,
    /// not a wall and has no cost yet, it gets cost one more than `from`, is marked as
    /// reached by `d`, and joins the frontier. A cell with a cost keeps it.
    fn relax(&mut self, from: usize, d: Direction)
        requires
            old(self).inv_but(from as int),
            from < old(self).dungeon.cells@.len(),
            has_cost(old(self).dungeon.cells@[from as int]),
            d != Direction::N,
        ensures
            final(self).inv_but(from as int),
            final(self).closed == old(self).closed,
            old(self).goal_pending() ==> final(self).goal_pending(),
            forall|j: int|
                0 <= j < old(self).frontier.entries@.len() ==> final(self).frontier.entries@[j]
                    == old(self).frontier.entries@[j],
            final(self).frontier.entries@.len() >= old(self).frontier.entries@.len(),
            ({
                let p = moved(old(self).dungeon.cells@[from as int].point.pos(), d);
                final(self).dungeon.passable(p) ==> has_cost(final(self).dungeon.at(p))
            }),
            final(self).dungeon.same_terrain(&old(self).dungeon),
            final(self).start == old(self).start,
            final(self).goal == old(self).goal,
            final(self).discovered >= old(self).discovered,
            forall|k: int|
                0 <= k < old(self).dungeon.cells@.len() && has_cost(#[trigger] old(self).dungeon.cells@[k])
                    ==> final(self).dungeon.cells@[k] == old(self).dungeon.cells@[k],
            final(self).frontier.entries@.len() == old(self).frontier.entries@.len() + (
            final(self).discovered - old(self).discovered),
    {
        let cur = self.dungeon.cells[from];
        match self.dungeon.step(cur.point, d) {
            None => {},
            Some(q) => {
                let k = self.dungeon.index(q);
                let c = self.dungeon.cells[k];
                if c.state != State::Wall && c.f_cost.is_none() {
                    let g: usize = match cur.g_cost {
                        Some(g) => g,
                        None => 0,
                    };
                    let ghost old_visited = self.visited();
                    let ghost old_self = *self;
                    proof {
                        self.dungeon.lemma_at(cur.point.pos());
                        self.dungeon.lemma_at(self.goal.pos());
                        assert(manhattan_spec(q.pos(), self.goal.pos()) < self.dungeon.width
                            + self.dungeon.height);
                        assert(k != self.start_index);
                    }
                    let h = manhattan(&q, &self.goal);
                    let nf = Field {
                        point: c.point,
                        state: c.state,
                        came_from: d,
                        f_cost: Some(g + 1 + h),
                        g_cost: Some(g + 1),
                    };
                    self.dungeon.cells.set(k, nf);
                    proof {
                        assert(self.dungeon.cells@[self.start_index as int]
                            == old_self.dungeon.cells@[self.start_index as int]);
                        assert(self.visited() =~= old_visited.insert(k as int));
                        self.lemma_discovered_bound(self.visited());
                        assert(moved(q.pos(), opposite(d)) == cur.point.pos());
                        assert forall|j: int|
                            0 <= j < self.dungeon.cells@.len() && j != self.start_index && has_cost(
                                #[trigger] self.dungeon.cells@[j],
                            ) implies self.linked(j) by {
                            if j != k {
                                assert(old_self.linked(j));
                                let f = self.dungeon.cells@[j];
                                let back = moved(f.point.pos(), opposite(f.came_from));
                                self.dungeon.lemma_at(back);
                            }
                        }
                    }
                    self.discovered = self.discovered + 1;
                    self.frontier.push(Entry { f: g + 1 + h, h, index: k });
                    proof {
                        let last = self.frontier.entries@.len() - 1;
                        assert(self.frontier.entries@[last].index == k);
                        assert(self.in_frontier(k as int));
                        self.lemma_keeps_closure(&old_self, from as int);
                        self.dungeon.lemma_at(q.pos());
                        if old_self.goal_pending() && has_cost(self.dungeon.at(self.goal.pos())) {
                            let gk = index_of(self.dungeon.width as int, self.goal.pos());
                            if gk != k {
                                self.dungeon.lemma_at(self.goal.pos());
                                let j = choose|j: int| 0 <= j < old_self.frontier.entries@.len()
                                    && (#[trigger] old_self.frontier.entries@[j]).index == gk;
                                assert(self.frontier.entries@[j] == old_self.frontier.entries@[j]);
                            }
                        }
                    }
                } else {
                    proof {
                        self.dungeon.lemma_at(q.pos());
                    }
                }
            },
        }
    }

    /// Setting costs on cells without one keeps every expanded cell expanded, and every
    /// costed cell in the frontier, closed or the goal.
    proof fn lemma_keeps_closure(&self, old_self: &Search, skip: int)
        requires
            old_self.inv_but(skip),
            self.dungeon.wf(),
            self.dungeon.same_terrain(&old_self.dungeon),
            self.closed == old_self.closed,
            forall|k: int|
                0 <= k < old_self.dungeon.cells@.len() && has_cost(#[trigger] old_self.dungeon.cells@[k])
                    ==> self.dungeon.cells@[k] == old_self.dungeon.cells@[k],
            forall|j: int|
                0 <= j < old_self.frontier.entries@.len() ==> self.frontier.entries@[j]
                    == old_self.frontier.entries@[j],
            self.frontier.entries@.len() >= old_self.frontier.entries@.len(),
            forall|k: int|
                0 <= k < self.dungeon.cells@.len() && has_cost(#[trigger] self.dungeon.cells@[k])
                    && !has_cost(old_self.dungeon.cells@[k]) ==> self.in_frontier(k),
        ensures
            forall|k: int|
                #[trigger] self.closed@.contains(k) ==> 0 <= k < self.dungeon.cells@.len() && has_cost(
                    self.dungeon.cells@[k],
                ) && self.expanded(k),
            forall|k: int|
                0 <= k < self.dungeon.cells@.len() && has_cost(#[trigger] self.dungeon.cells@[k])
                    && !self.closed@.contains(k) && k != skip ==> self.in_frontier(k)
                    || self.dungeon.cells@[k].state == State::Goal,
    {
        assert forall|k: int| #[trigger] self.closed@.contains(k) implies 0 <= k < self.dungeon.cells@.len()
            && has_cost(self.dungeon.cells@[k]) && self.expanded(k) by {
            assert(old_self.expanded(k));
            let p = self.dungeon.cells@[k].point.pos();
            assert forall|d: Direction| d != Direction::N && self.dungeon.passable(#[trigger] moved(p, d))
                implies has_cost(self.dungeon.at(moved(p, d))) by {
                self.dungeon.lemma_at(moved(p, d));
                assert(old_self.dungeon.passable(moved(p, d)));
            }
        }
        assert forall|k: int|
            0 <= k < self.dungeon.cells@.len() && has_cost(#[trigger] self.dungeon.cells@[k])
                && !self.closed@.contains(k) && k != skip implies self.in_frontier(k)
                || self.dungeon.cells@[k].state == State::Goal by {
            if has_cost(old_self.dungeon.cells@[k]) {
                if old_self.in_frontier(k) {
                    let j = choose|j: int| 0 <= j < old_self.frontier.entries@.len()
                        && (#[trigger] old_self.frontier.entries@[j]).index == k;
                    assert(self.frontier.entries@[j] == old_self.frontier.entries@[j]);
                }
            }
        }
    }
}

impl Search {
    /// Walks the `came_from` links back from the costed cell `goal_index` to the start,
    /// giving the moves from the start to it in order.
    fn reconstruct(&self, goal_index: usize) -> (path: Vec<Direction>)
        requires
            self.inv_but(goal_index as int),
            goal_index < self.dungeon.cells@.len(),
            has_cost(self.dungeon.cells@[goal_index as int]),
        ensures
            self.dungeon.walk_ok(self.start.pos(), path@),
            walk_end(self.start.pos(), path@) == self.dungeon.cells@[goal_index as int].point.pos(),
            self.dungeon.cells@[goal_index as int].g_cost matches Some(g) && g == path@.len(),
    {
        let ghost target = self.dungeon.cells@[goal_index as int];
        let mut cur: usize = goal_index;
        let mut path: Vec<Direction> = Vec::new();
        while cur != self.start_index
            invariant
                self.inv_but(goal_index as int),
                cur < self.dungeon.cells@.len(),
                has_cost(self.dungeon.cells@[cur as int]),
                self.dungeon.walk_ok(self.dungeon.cells@[cur as int].point.pos(), path@),
                walk_end(self.dungeon.cells@[cur as int].point.pos(), path@) == target.point.pos(),
                self.dungeon.cells@[cur as int].g_cost->0 + path@.len() == target.g_cost->0,
            decreases self.dungeon.cells@[cur as int].g_cost->0,
        {
            let f = self.dungeon.cells[cur];
            proof {
                assert(self.linked(cur as int));
            }
            match self.dungeon.step(f.point, reverse(f.came_from)) {
                None => {
                    proof {
                        assert(self.linked(cur as int));
                        assert(false);
                    }
                },
                Some(p) => {
                    let k = self.dungeon.index(p);
                    let ghost old_path = path@;
                    path.insert(0, f.came_from);
                    proof {
                        self.dungeon.lemma_at(f.point.pos());
                        assert(moved(p.pos(), f.came_from) == f.point.pos());
                        assert(path@.drop_first() =~= old_path);
                        assert(path@[0] == f.came_from);
                    }
                    cur = k;
                },
            }
        }
        proof {
            self.dungeon.lemma_at(self.start.pos());
        }
        path
    }

    /// Takes the best entry from a non-empty frontier.
    fn take_best(&mut self) -> (e: Entry)
        requires
            old(self).inv(),
            old(self).frontier.entries@.len() > 0,
        ensures
            final(self).inv_but(e.index as int),
            e.index < final(self).dungeon.cells@.len(),
            has_cost(final(self).dungeon.cells@[e.index as int]),
            final(self).dungeon == old(self).dungeon,
            final(self).start == old(self).start,
            final(self).goal == old(self).goal,
            final(self).discovered == old(self).discovered,
            final(self).closed == old(self).closed,
            final(self).frontier.entries@.len() == old(self).frontier.entries@.len() - 1,
            exists|i: int|
                first_min(old(self).frontier.entries@, i) && e == old(self).frontier.entries@[i]
                    && final(self).frontier.entries@ == old(self).frontier.entries@.remove(i),
            old(self).goal_pending() && e.index != index_of(final(self).dungeon.width as int, final(self).goal.pos())
                ==> final(self).goal_pending(),
    {
        let ghost before_pop = self.frontier.entries@;
        let ghost s0 = *self;
        let e = self.frontier.pop_min();
        proof {
            let i = choose|i: int|
                first_min(before_pop, i) && e == before_pop[i] && self.frontier.entries@ == before_pop.remove(i);
            assert(before_pop[i].index < self.dungeon.cells@.len());
            assert forall|j: int| 0 <= j < self.frontier.entries@.len() implies {
                let x = #[trigger] self.frontier.entries@[j];
                x.index < self.dungeon.cells@.len() && has_cost(self.dungeon.cells@[x.index as int])
            } by {
                if j < i {
                    assert(self.frontier.entries@[j] == before_pop[j]);
                } else {
                    assert(self.frontier.entries@[j] == before_pop[j + 1]);
                }
            }
            assert forall|k: int|
                0 <= k < self.dungeon.cells@.len() && has_cost(#[trigger] self.dungeon.cells@[k])
                    && !self.closed@.contains(k) && k != e.index implies self.in_frontier(k)
                    || self.dungeon.cells@[k].state == State::Goal by {
                if s0.in_frontier(k) {
                    let j = choose|j: int| 0 <= j < before_pop.len() && (#[trigger] before_pop[j]).index == k;
                    if j < i {
                        assert(self.frontier.entries@[j] == before_pop[j]);
                    } else if j > i {
                        assert(self.frontier.entries@[j - 1] == before_pop[j]);
                    }
                }
            }
            let gk = index_of(self.dungeon.width as int, self.goal.pos());
            if s0.goal_pending() && has_cost(self.dungeon.at(self.goal.pos())) && e.index != gk {
                let j = choose|j: int| 0 <= j < before_pop.len() && (#[trigger] before_pop[j]).index == gk;
                if j < i {
                    assert(self.frontier.entries@[j] == before_pop[j]);
                } else if j > i {
                    assert(self.frontier.entries@[j - 1] == before_pop[j]);
                }
            }
            assert(self.inv_but(e.index as int));
        }
        e
    }

    #[verifier::rlimit(50)]
    /// Relaxes the four neighbours of cell `from`, which then counts as expanded.
    fn expand(&mut self, from: usize)
        requires
            old(self).inv_but(from as int),
            from < old(self).dungeon.cells@.len(),
            has_cost(old(self).dungeon.cells@[from as int]),
            old(self).dungeon.cells@[from as int].state != State::Goal,
        ensures
            final(self).inv(),
            final(self).dungeon.same_terrain(&old(self).dungeon),
            final(self).start == old(self).start,
            final(self).goal == old(self).goal,
            final(self).discovered >= old(self).discovered,
            final(self).frontier.entries@.len() == old(self).frontier.entries@.len() + (
            final(self).discovered - old(self).discovered),
            final(self).frontier.entries@.take(old(self).frontier.entries@.len() as int)
                == old(self).frontier.entries@,
            old(self).goal_pending() ==> final(self).goal_pending(),
    {
        let ghost f0 = self.frontier.entries@;
        let ghost p = self.dungeon.cells@[from as int].point.pos();
        self.relax(from, Direction::Up);
        let ghost s1 = *self;
        self.relax(from, Direction::Down);
        let ghost s2 = *self;
        self.relax(from, Direction::Left);
        let ghost s3 = *self;
        self.relax(from, Direction::Right);
        proof {
            assert(self.frontier.entries@.take(f0.len() as int) =~= f0);
            lemma_four_sides(&s1.dungeon, &s2.dungeon, &s3.dungeon, &self.dungeon, p);
            assert(self.dungeon.cells@[from as int].point.pos() == p);
            assert forall|d: Direction| d != Direction::N && self.dungeon.passable(#[trigger] moved(p, d))
                implies has_cost(self.dungeon.at(moved(p, d))) by {
                assert(side_costed(&self.dungeon, p, d));
            }
            assert(self.expanded(from as int));
            self.lemma_close(from as int);
            let ghost before_close = *self;
            self.closed = Ghost(self.closed@.insert(from as int));
            Search::lemma_same_parts(&before_close, self, self.closed@, -1);
        }
    }

    /// One round of the search. An empty frontier means the goal cannot be reached. Else
    /// the best entry leaves the frontier; if it is the goal, the path to it is returned,
    /// and otherwise its neighbours (up, down, left, right) are relaxed.
    pub fn step(&mut self) -> (r: Outcome)
        requires
            old(self).inv(),
        ensures
            final(self).inv(),
            final(self).maze().same_terrain(old(self).maze()),
            final(self).start_pos() == old(self).start_pos(),
            final(self).goal_pos() == old(self).goal_pos(),
            r is Running ==> final(self).measure() < old(self).measure(),
            r is Unreachable <==> old(self).frontier_view().len() == 0,
            old(self).frontier_view().len() > 0 ==> exists|i: int|
                first_min(old(self).frontier_view(), i) && ({
                    let e = old(self).frontier_view()[i];
                    &&& final(self).frontier_view().take(old(self).frontier_view().len() - 1)
                        == old(self).frontier_view().remove(i)
                    &&& (r is Reached <==> old(self).maze().cells@[e.index as int].state == State::Goal)
                }),
            old(self).goal_pending() && !(r is Reached) ==> final(self).goal_pending(),
            r is Unreachable && old(self).goal_pending() ==> !final(self).maze().reachable(
                final(self).start_pos(),
                final(self).goal_pos(),
            ),
            r matches Outcome::Reached(path) ==> {
                &&& final(self).maze().walk_ok(final(self).start_pos(), path@)
                &&& walk_end(final(self).start_pos(), path@) == final(self).goal_pos()
                &&& final(self).maze().at(final(self).goal_pos()).g_cost matches Some(g) && g
                    == path@.len()
            },
    {
        if self.frontier.is_empty() {
            proof {
                if self.goal_pending() {
                    self.lemma_no_walk();
                }
            }
            return Outcome::Unreachable;
        }
        let ghost f0 = self.frontier.entries@;
        let e = self.take_best();
        let ghost f1 = self.frontier.entries@;
        proof {
            let i = choose|i: int| first_min(f0, i) && e == f0[i] && f1 == f0.remove(i);
            assert(f1.take(f0.len() - 1) =~= f1);
        }
        let cur = self.dungeon.cells[e.index];
        if cur.state == State::Goal {
            let path = self.reconstruct(e.index);
            proof {
                self.dungeon.lemma_at(self.goal.pos());
                assert(self.dungeon.cells@[e.index as int].point == self.goal);
            }
            return Outcome::Reached(path);
        }
        proof {
            self.dungeon.lemma_at(self.goal.pos());
            assert(self.dungeon.cells@[index_of(self.dungeon.width as int, self.goal.pos())].point == self.goal);
        }
        self.expand(e.index);
        proof {
            let i = choose|i: int| first_min(f0, i) && e == f0[i] && f1 == f0.remove(i);
            assert(self.frontier.entries@.take(f0.len() - 1) =~= f1);
        }
        Outcome::Running
    }
}

/// Searches `dungeon` from its start to its goal. On success the result holds the moves
/// from the start to the goal, each onto a cell inside the grid that is not a wall, and
/// as many as the cost recorded at the goal; the maze is handed back with those costs.
/// The result is `None` exactly when no such walk exists. A cell keeps the cost it was
/// first given: later discoveries never lower it.
pub fn search_dungeon(dungeon: Dungeon) -> (r: (Option<Vec<Direction>>, Dungeon))
    requires
        dungeon.valid_maze(),
    ensures
        r.1.same_terrain(&dungeon),
        r.0 is None <==> !dungeon.reachable(dungeon.locate(State::Start), dungeon.locate(State::Goal)),
        r.0 matches Some(path) ==> {
            &&& dungeon.walk_ok(dungeon.locate(State::Start), path@)
            &&& walk_end(dungeon.locate(State::Start), path@) == dungeon.locate(State::Goal)
            &&& r.1.at(dungeon.locate(State::Goal)).g_cost matches Some(g) && g == path@.len()
            &&& path@.len() >= manhattan_spec(dungeon.locate(State::Start), dungeon.locate(State::Goal))
        },
{
    let ghost orig = dungeon;
    let mut s = Search::new(dungeon);
    loop
        invariant
            s.inv(),
            s.maze().same_terrain(&orig),
            orig == dungeon,
            s.goal_pending(),
            s.start_pos() == orig.locate(State::Start),
            s.goal_pos() == orig.locate(State::Goal),
        decreases s.measure(),
    {
        let ghost prev = *s.maze();
        let outcome = s.step();
        proof {
            lemma_same_terrain_trans(s.maze(), &prev, &orig);
        }
        match outcome {
            Outcome::Running => {},
            Outcome::Reached(path) => {
                proof {
                    lemma_walk_same_terrain(s.maze(), &orig, s.start_pos(), path@);
                    crate::grid::lemma_walk_at_least_manhattan(s.start_pos(), path@);
                }
                let d = s.into_dungeon();
                proof {
                    assert(d.same_terrain(&orig));
                }
                return (Some(path), d);
            },
            Outcome::Unreachable => {
                proof {
                    assert forall|path: Seq<Direction>| !(orig.walk_ok(s.start_pos(), path) && walk_end(
                        s.start_pos(),
                        path,
                    ) == s.goal_pos()) by {
                        lemma_walk_same_terrain(s.maze(), &orig, s.start_pos(), path);
                    }
                }
                let d = s.into_dungeon();
                proof {
                    assert(d.same_terrain(&orig));
                }
                return (None, d);
            },
        }
    }
}

proof fn lemma_same_terrain_trans(a: &Dungeon, b: &Dungeon, c: &Dungeon)
    requires
        a.same_terrain(b),
        b.same_terrain(c),
    ensures
        a.same_terrain(c),
{
    assert forall|k: int| 0 <= k < a.cells@.len() implies (#[trigger] a.cells@[k]).state
        == c.cells@[k].state && a.cells@[k].point == c.cells@[k].point by {
        assert(b.cells@[k].state == c.cells@[k].state);
    }
}

pub open spec fn keeps_costs(a: &Dungeon, b: &Dungeon) -> bool {
    forall|k: int|
        0 <= k < a.cells@.len() && has_cost(#[trigger] a.cells@[k]) ==> b.cells@[k] == a.cells@[k]
}

pub open spec fn side_costed(d: &Dungeon, p: (int, int), dir: Direction) -> bool {
    d.passable(moved(p, dir)) ==> has_cost(d.at(moved(p, dir)))
}

proof fn lemma_four_sides(d1: &Dungeon, d2: &Dungeon, d3: &Dungeon, d4: &Dungeon, p: (int, int))
    requires
        d1.wf(),
        d2.same_terrain(d1),
        d3.same_terrain(d2),
        d4.same_terrain(d3),
        keeps_costs(d1, d2),
        keeps_costs(d2, d3),
        keeps_costs(d3, d4),
        side_costed(d1, p, Direction::Up),
        side_costed(d2, p, Direction::Down),
        side_costed(d3, p, Direction::Left),
        side_costed(d4, p, Direction::Right),
    ensures
        forall|d: Direction| d != Direction::N ==> side_costed(d4, p, d),
{
    assert forall|d: Direction| d != Direction::N implies side_costed(d4, p, d) by {
        let q = moved(p, d);
        if d4.passable(q) {
            d1.lemma_at(q);
            let k = index_of(d1.width as int, q);
            if d == Direction::Up {
                assert(has_cost(d2.cells@[k]));
                assert(has_cost(d3.cells@[k]));
            } else if d == Direction::Down {
                assert(has_cost(d3.cells@[k]));
            }
        }
    }
}

/// A walk only depends on the grid's size and terrain.
pub proof fn lemma_walk_same_terrain(a: &Dungeon, b: &Dungeon, p: (int, int), path: Seq<Direction>)
    requires
        a.wf(),
        a.same_terrain(b),
    ensures
        a.walk_ok(p, path) == b.walk_ok(p, path),
    decreases path.len(),
{
    if path.len() > 0 {
        let q = moved(p, path[0]);
        if a.inside(q) {
            a.lemma_at(q);
        }
        lemma_walk_same_terrain(a, b, q, path.drop_first());
    }
}

proof fn lemma_count_exists_in(d: &Dungeon, s: State)
    requires
        count_of(d.states(), s) >= 1,
    ensures
        exists|k: int| 0 <= k < d.cells@.len() && (#[trigger] d.cells@[k]).state == s,
{
    crate::grid::lemma_count_exists(d.states(), s);
    let k = choose|k: int| 0 <= k < d.states().len() && d.states()[k] == s;
    assert(d.cells@[k].state == s);
}

} // verus!
