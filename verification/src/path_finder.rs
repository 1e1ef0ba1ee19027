use vstd::prelude::*;

use crate::cell_sets::{CellMap, CellSet, cell_map_contents, cell_set_contents};
use crate::util::{Point, cell_index, cell_x, cell_y, lemma_cell_coords_bijective,
    lemma_cell_index_bijective, valid_coords};

verus! {

broadcast use vstd::set::group_set_axioms;

/// Default bound on the number of cell expansions in one search.
pub const MAX_ITERATIONS: i32 = 2000;

/// Sentinel score for cells not yet reached in the current search.
const INFINITY: i64 = i64::MAX;

/// Capability supplied by the caller for one search: goal normalization
/// and the dynamic passability query.  The two spec functions fix what the
/// two executable methods return, so that a path returned by the finder
/// can be described in terms of the checker it was searched with.
pub trait LocationChecker {
    /// The normalized (possibly snapped) target used for all heuristic and
    /// goal-test computation when searching toward `(x, y)`.
    spec fn goal_spec(&self, x: i32, y: i32) -> (i32, i32);

    /// Whether the cell `(x, y)` can be entered.
    spec fn passable_spec(&self, x: i32, y: i32) -> bool;

    fn goal(&self, x: i32, y: i32) -> (r: (i32, i32))
        ensures
            r == self.goal_spec(x, y),
    ;

    fn passable(&self, x: i32, y: i32) -> (r: bool)
        ensures
            r == self.passable_spec(x, y),
    ;
}

/// One discovered cell waiting in the open set, with the f-score it was
/// discovered at.
pub struct OpenEntry {
    pub f_score: i64,
    pub index: i32,
}

impl OpenEntry {
    pub fn new(index: i32, f_score: i64) -> (e: OpenEntry)
        ensures
            e.index == index,
            e.f_score == f_score,
    {
        OpenEntry { index, f_score }
    }
}

/// The squared Euclidean distance from the cell with linear index `cell`
/// to the goal position `(gx, gy)`.
pub open spec fn cell_dist_sq(width: int, cell: int, gx: int, gy: int) -> int {
    let dx = cell_x(width, cell) - gx;
    let dy = cell_y(width, cell) - gy;
    dx * dx + dy * dy
}

/// The squared Euclidean distance from the point `p` to `(gx, gy)`.
pub open spec fn point_dist_sq(p: Point, gx: int, gy: int) -> int {
    (p.x - gx) * (p.x - gx) + (p.y - gy) * (p.y - gy)
}

/// Whether the cells with linear indices `a` and `b` are one cardinal
/// step apart.
pub open spec fn cardinal_adjacent(width: int, a: int, b: int) -> bool {
    cardinal_step(
        Point { x: cell_x(width, a) as i32, y: cell_y(width, a) as i32 },
        Point { x: cell_x(width, b) as i32, y: cell_y(width, b) as i32 },
    )
}

/// Whether the points `a` and `b` are one cardinal step apart.
pub open spec fn cardinal_step(a: Point, b: Point) -> bool {
    ||| (a.x == b.x && (a.y - b.y == 1 || b.y - a.y == 1))
    ||| (a.y == b.y && (a.x - b.x == 1 || b.x - a.x == 1))
}

/// A walk the checker admits: it starts at the requester's cell, advances
/// one cardinal step at a time over on-grid cells the checker reports
/// passable, and ends within `dest_dist` of the normalized goal.  The
/// single start cell is such a walk when the start already lies in the
/// acceptance radius.
pub open spec fn is_goal_walk<T: LocationChecker>(
    checker: &T,
    width: int,
    height: int,
    start_x: int,
    start_y: int,
    dest_x: i32,
    dest_y: i32,
    dest_dist: i32,
    path: Seq<Point>,
) -> bool {
    let goal = checker.goal_spec(dest_x, dest_y);
    &&& path.len() >= 1
    &&& path[0].x == start_x
    &&& path[0].y == start_y
    &&& (forall|i: int|
        0 <= i < path.len() ==> valid_coords(
            width,
            height,
            (#[trigger] path[i]).x as int,
            path[i].y as int,
        ))
    &&& (forall|i: int| 1 <= i < path.len() ==> cardinal_step(path[i - 1], #[trigger] path[i]))
    &&& (forall|i: int|
        1 <= i < path.len() ==> checker.passable_spec((#[trigger] path[i]).x, path[i].y))
    &&& point_dist_sq(path[path.len() - 1], goal.0 as int, goal.1 as int) <= dest_dist as int
        * dest_dist as int
}

/// Whether some walk the checker admits reaches the acceptance radius.
pub open spec fn has_path_to_goal<T: LocationChecker>(
    checker: &T,
    width: int,
    height: int,
    start_x: int,
    start_y: int,
    dest_x: i32,
    dest_y: i32,
    dest_dist: i32,
) -> bool {
    exists|path: Seq<Point>|
        is_goal_walk(checker, width, height, start_x, start_y, dest_x, dest_y, dest_dist, path)
}

/// What `PathFinder::find` promises of a returned path: a goal walk of at
/// least one actual step.
pub open spec fn is_returned_path<T: LocationChecker>(
    checker: &T,
    width: int,
    height: int,
    start_x: int,
    start_y: int,
    dest_x: i32,
    dest_y: i32,
    dest_dist: i32,
    path: Seq<Point>,
) -> bool {
    &&& is_goal_walk(checker, width, height, start_x, start_y, dest_x, dest_y, dest_dist, path)
    &&& path.len() >= 2
}

/// Obstacle routing: where the checker blocks an entire row except one
/// open cell, every step of a returned path that lands on that row stands
/// on the open cell.
pub proof fn lemma_obstacle_row_routing<T: LocationChecker>(
    checker: &T,
    width: int,
    height: int,
    start_x: int,
    start_y: int,
    dest_x: i32,
    dest_y: i32,
    dest_dist: i32,
    path: Seq<Point>,
    row: i32,
    open_x: i32,
)
    requires
        is_returned_path(
            checker,
            width,
            height,
            start_x,
            start_y,
            dest_x,
            dest_y,
            dest_dist,
            path,
        ),
        forall|x: i32| #[trigger] checker.passable_spec(x, row) ==> x == open_x,
    ensures
        forall|i: int| 1 <= i < path.len() && (#[trigger] path[i]).y == row ==> path[i].x == open_x,
{
    assert forall|i: int| 1 <= i < path.len() && (#[trigger] path[i]).y == row implies path[i].x
        == open_x by {
        assert(checker.passable_spec(path[i].x, path[i].y));
    }
}

/// Stateful A* search engine over a fixed `width` by `height` grid,
/// reusable across many searches.  The score arrays are preallocated once
/// and reset to a sentinel at the start of each search.
pub struct PathFinder {
    pub width: i32,
    pub height: i32,
    f_score: Vec<i64>,
    g_score: Vec<i64>,
    open: Vec<OpenEntry>,
    open_set: CellSet,
    closed: CellSet,
    came_from: CellMap,
    goal_x: i32,
    goal_y: i32,
    max_iterations: i32,
}

impl PathFinder {
    pub closed spec fn spec_width(&self) -> i32 {
        self.width
    }

    pub closed spec fn spec_height(&self) -> i32 {
        self.height
    }

    /// Grid dimensions are positive and the score arrays cover the grid.
    pub closed spec fn wf(&self) -> bool {
        &&& 1 <= self.width
        &&& 1 <= self.height
        &&& self.width * self.height <= i32::MAX
        &&& self.g_score@.len() == self.width * self.height
        &&& self.f_score@.len() == self.width * self.height
    }

    pub closed spec fn spec_max_iterations(&self) -> i32 {
        self.max_iterations
    }

    pub fn new(width: i32, height: i32) -> (pf: PathFinder)
        requires
            0 <= width,
            0 <= height,
            width * height <= i32::MAX,
        ensures
            1 <= width && 1 <= height ==> pf.wf(),
            pf.spec_width() == width,
            pf.spec_height() == height,
            pf.spec_max_iterations() == MAX_ITERATIONS,
    {
        proof {
            assert(0 <= width * height) by (nonlinear_arith)
                requires
                    0 <= width,
                    0 <= height,
            ;
        }
        let dim = (width * height) as usize;
        PathFinder {
            width,
            height,
            f_score: filled_scores(dim),
            g_score: filled_scores(dim),
            open: Vec::new(),
            open_set: CellSet::new(),
            closed: CellSet::new(),
            came_from: CellMap::new(),
            goal_x: 0,
            goal_y: 0,
            max_iterations: MAX_ITERATIONS,
        }
    }

    pub fn set_max_iterations(&mut self, iterations: i32)
        ensures
            final(self).spec_max_iterations() == iterations,
            final(self).spec_width() == old(self).spec_width(),
            final(self).spec_height() == old(self).spec_height(),
            old(self).wf() ==> final(self).wf(),
    {
        self.max_iterations = iterations;
    }

    /// Finds a path from `(start_x, start_y)` to within `dest_dist` of the
    /// destination, querying `checker` for passability lazily, once per
    /// first-discovered neighbor.  Returns `None` when the destination or
    /// the normalized goal lies off the grid, when the start already lies
    /// within `dest_dist` of the normalized goal, when the iteration
    /// budget runs out, and when no path exists; these outcomes are not
    /// distinguishable by the caller, by design.
    #[verifier::loop_isolation(false)]
    #[verifier::rlimit(100)]
    /// Finds a path from `(start_x, start_y)` to within `dest_dist` of the
    /// destination, querying `checker` for passability lazily, once per
    /// first-discovered neighbor.  Returns `None` when the destination or
    /// the normalized goal lies off the grid (a snap off the grid names no
    /// searchable target), when the start already lies within `dest_dist`
    /// of the normalized goal, when the iteration budget runs out, and
    /// when no path exists; these outcomes are not distinguishable by the
    /// caller, by design.  With a budget of at least one expansion per
    /// grid cell, a reachable goal is found: every admitted walk pins
    /// success.
    #[verifier::loop_isolation(false)]
    #[verifier::rlimit(100)]
    pub fn find<T: LocationChecker>(
        &mut self,
        checker: &T,
        start_x: i32,
        start_y: i32,
        dest_x: i32,
        dest_y: i32,
        dest_dist: i32,
    ) -> (r: Option<Vec<Point>>)
        requires
            old(self).wf(),
            valid_coords(
                old(self).spec_width() as int,
                old(self).spec_height() as int,
                start_x as int,
                start_y as int,
            ),
        ensures
            final(self).wf(),
            final(self).spec_width() == old(self).spec_width(),
            final(self).spec_height() == old(self).spec_height(),
            final(self).spec_max_iterations() == old(self).spec_max_iterations(),
            !valid_coords(
                old(self).spec_width() as int,
                old(self).spec_height() as int,
                dest_x as int,
                dest_y as int,
            ) ==> r is None,
            !valid_coords(
                old(self).spec_width() as int,
                old(self).spec_height() as int,
                checker.goal_spec(dest_x, dest_y).0 as int,
                checker.goal_spec(dest_x, dest_y).1 as int,
            ) ==> r is None,
            point_dist_sq(
                Point { x: start_x, y: start_y },
                checker.goal_spec(dest_x, dest_y).0 as int,
                checker.goal_spec(dest_x, dest_y).1 as int,
            ) <= dest_dist as int * dest_dist as int ==> r is None,
            r matches Some(path) ==> is_returned_path(
                checker,
                old(self).spec_width() as int,
                old(self).spec_height() as int,
                start_x as int,
                start_y as int,
                dest_x,
                dest_y,
                dest_dist,
                path@,
            ),
            ({
                let goal = checker.goal_spec(dest_x, dest_y);
                let w = old(self).spec_width() as int;
                let h = old(self).spec_height() as int;
                &&& valid_coords(w, h, dest_x as int, dest_y as int)
                &&& valid_coords(w, h, goal.0 as int, goal.1 as int)
                &&& point_dist_sq(Point { x: start_x, y: start_y }, goal.0 as int, goal.1 as int)
                    > dest_dist as int * dest_dist as int
                &&& old(self).spec_max_iterations() as int >= w * h
                &&& has_path_to_goal(
                    checker,
                    w,
                    h,
                    start_x as int,
                    start_y as int,
                    dest_x,
                    dest_y,
                    dest_dist,
                )
            }) ==> r is Some,
    {
        let ghost w = self.width as int;
        let ghost h = self.height as int;
        let ghost n = w * h;
        let ghost m0 = self.max_iterations;

        if dest_x < 0 || dest_y < 0 {
            return None;
        }
        if dest_x >= self.width || dest_y >= self.height {
            return None;
        }

        let goal = checker.goal(dest_x, dest_y);
        if goal.0 < 0 || goal.1 < 0 || goal.0 >= self.width || goal.1 >= self.height {
            return None;
        }
        self.goal_x = goal.0;
        self.goal_y = goal.1;
        let ghost gx = self.goal_x as int;
        let ghost gy = self.goal_y as int;

        let ghost dd = dest_dist as int;
        proof {
            assert(0 <= dd * dd <= 0x4000_0000_0000_0000) by (nonlinear_arith)
                requires
                    -0x8000_0000 <= dd <= 0x7FFF_FFFF,
            ;
            lemma_cell_index_bijective(w, h, start_x as int, start_y as int);
        }
        let dest_dist_squared: i64 = (dest_dist as i64) * (dest_dist as i64);
        let start: i32 = start_x + start_y * self.width;
        let ghost s0 = start;

        self.open.clear();
        self.open_set.clear();
        self.closed.clear();
        self.came_from.clear();
        reset_scores(&mut self.g_score);
        reset_scores(&mut self.f_score);

        self.g_score.set(start as usize, 0);
        let start_dist = self.dist_squared(start);
        self.f_score.set(start as usize, start_dist);

        self.open.push(OpenEntry::new(start, start_dist));
        self.open_set.insert(start);
        let ghost mut popped: Set<int> = Set::empty();
        proof {
            assert(popped.len() == 0);
            assert(self.open@[0].index == s0);
            assert forall|v: i32| #[trigger] cell_set_contents(self.open_set).contains(v) implies (
            exists|j: int| 0 <= j < self.open@.len() && (#[trigger] self.open@[j]).index == v) by {
                assert(v == s0);
                assert(self.open@[0].index == v);
            }
        }

        let mut iterations: i32 = 0;
        #[verifier::loop_isolation(true)]
        while iterations < self.max_iterations && self.open.len() > 0
            invariant
                self.wf(),
                w == self.width as int,
                h == self.height as int,
                old(self).spec_width() == self.width,
                old(self).spec_height() == self.height,
                old(self).spec_max_iterations() == m0,
                valid_coords(w, h, dest_x as int, dest_y as int),
                n == w * h,
                m0 == self.max_iterations,
                gx == self.goal_x as int,
                gy == self.goal_y as int,
                valid_coords(w, h, gx, gy),
                valid_coords(w, h, start_x as int, start_y as int),
                s0 == cell_index(w, start_x as int, start_y as int),
                0 <= s0 < n,
                0 <= iterations,
                self.parents_inv(s0),
                self.g_bounded(1 + 4 * iterations as int),
                self.open_ok(),
                self.cf_passable(checker),
                (checker.goal_spec(dest_x, dest_y).0 as int, checker.goal_spec(
                    dest_x,
                    dest_y,
                ).1 as int) == (gx, gy),
                dest_dist_squared == dest_dist as int * dest_dist as int,
                0 <= dest_dist_squared <= 0x4000_0000_0000_0000i64,
                cell_dist_sq(w, s0 as int, gx, gy) <= dest_dist_squared ==> (self.open@.len() == 1
                    && self.open@[0].index == s0),
                iterations == 0 ==> (self.open@.len() == 1 && self.open@[0].index == s0),
                iterations >= 1 ==> popped.contains(s0 as int),
                popped.len() == iterations as nat,
                self.popped_core(checker, popped, gx, gy, dest_dist_squared as int),
                self.popped_covered(popped),
                self.open_frontier_ok(popped),
            decreases m0 - iterations,
        {
            let ghost oset_before = cell_set_contents(self.open_set);
            let current = self.pop_next(Ghost(popped));
            if self.is_goal(current, dest_dist_squared) {
                let path = self.reconstruct_path(current, Ghost(s0));
                proof {
                    lemma_cell_index_bijective(w, h, start_x as int, start_y as int);
                }
                if path.len() == 1 {
                    proof {
                        assert(self.g_score@[current as int] == 0);
                        assert(current == s0);
                        assert(point_dist_sq(Point { x: start_x, y: start_y }, gx, gy)
                            == cell_dist_sq(w, s0 as int, gx, gy));
                    }
                    return None;
                }
                proof {
                    let pl = path@.len() as int;
                    assert(path@[pl - 1] == cell_point(w, current as int));
                    assert(point_dist_sq(path@[pl - 1], gx, gy) == cell_dist_sq(
                        w,
                        current as int,
                        gx,
                        gy,
                    ));
                    assert forall|i: int|
                        1 <= i < pl implies checker.passable_spec(
                        (#[trigger] path@[i]).x,
                        path@[i].y,
                    ) by {
                        let c = cell_index(w, path@[i].x as int, path@[i].y as int) as i32;
                        assert(self.cf_map().dom().contains(c));
                        lemma_cell_index_bijective(w, h, path@[i].x as int, path@[i].y as int);
                        assert(cell_point(w, c as int) == path@[i]);
                    }
                    // a start cell within the acceptance radius would have
                    // ended the search with the one-cell path
                    assert(!(cell_dist_sq(w, s0 as int, gx, gy) <= dest_dist_squared));
                    assert(point_dist_sq(Point { x: start_x, y: start_y }, gx, gy) == cell_dist_sq(
                        w,
                        s0 as int,
                        gx,
                        gy,
                    ));
                }
                return Some(path);
            }

            proof {
                assert(cell_set_contents(self.open_set).insert(current) =~= oset_before);
            }
            self.expand_current(
                checker,
                current,
                Ghost(s0),
                Ghost(iterations as int),
                Ghost(popped),
                Ghost(gx),
                Ghost(gy),
                Ghost(dest_dist_squared as int),
            );
            proof {
                popped = popped.insert(current as int);
                if iterations == 0 {
                    assert(current == s0);
                }
            }
            iterations += 1;
        }

        proof {
            let goal_pt = checker.goal_spec(dest_x, dest_y);
            if valid_coords(w, h, dest_x as int, dest_y as int) && valid_coords(
                w,
                h,
                goal_pt.0 as int,
                goal_pt.1 as int,
            ) && point_dist_sq(Point { x: start_x, y: start_y }, gx, gy) > dd * dd && m0 as int >= n
                && has_path_to_goal(
                checker,
                w,
                h,
                start_x as int,
                start_y as int,
                dest_x,
                dest_y,
                dest_dist,
            ) {
                lemma_search_exhausted(
                    checker,
                    w,
                    h,
                    cell_set_contents(self.closed),
                    cell_set_contents(self.open_set),
                    self.open@,
                    popped,
                    iterations as int,
                    m0 as int,
                    s0,
                    start_x as int,
                    start_y as int,
                    dest_x,
                    dest_y,
                    dest_dist,
                    gx,
                    gy,
                    dest_dist_squared as int,
                );
            }
        }
        None
    }

    /// Pops the next cell to expand and maintains the open bookkeeping.
    fn pop_next(&mut self, Ghost(popped): Ghost<Set<int>>) -> (r: i32)
        requires
            old(self).wf(),
            old(self).open@.len() > 0,
            old(self).open_ok(),
            old(self).open_frontier_ok(popped),
        ensures
            *old(self) == (PathFinder {
                open: old(self).open,
                open_set: old(self).open_set,
                ..*final(self)
            }),
            final(self).wf(),
            final(self).open@.len() == old(self).open@.len() - 1,
            0 <= r < old(self).width as int * old(self).height as int,
            final(self).g_score@[r as int] != INFINITY,
            !popped.contains(r as int),
            old(self).open@.len() == 1 ==> r == old(self).open@[0].index,
            cell_set_contents(final(self).open_set) == cell_set_contents(old(self).open_set).remove(
                r,
            ),
            cell_set_contents(old(self).open_set).contains(r),
            final(self).open_frontier_ok(popped.insert(r as int)),
            final(self).open_ok(),
            forall|j: int|
                0 <= j < final(self).open@.len() ==> exists|k: int|
                    0 <= k < old(self).open@.len() && #[trigger] final(self).open@[j] == old(
                        self,
                    ).open@[k],
    {
        let ghost open_before = self.open@;
        let ghost oset_before = cell_set_contents(self.open_set);
        let current = self.pop_lowest_f_score_in_open_set();
        proof {
            let k = choose|k: int|
                {
                    &&& 0 <= k < open_before.len()
                    &&& (#[trigger] open_before[k]).index == current
                    &&& (forall|j: int|
                        0 <= j < open_before.len() ==> open_before[k].f_score <= (
                        #[trigger] open_before[j]).f_score)
                    &&& (forall|j: int|
                        0 <= j < k ==> (#[trigger] open_before[j]).f_score
                            > open_before[k].f_score)
                    &&& self.open@ == open_before.update(k, open_before.last()).drop_last()
                };
            assert(!popped.contains(current as int));
            lemma_pop_shape(
                open_before,
                self.open@,
                oset_before,
                cell_set_contents(self.open_set),
                k,
                current,
                popped,
            );
            assert forall|j: int|
                0 <= j < self.open@.len() implies exists|k2: int|
                0 <= k2 < open_before.len() && #[trigger] self.open@[j] == open_before[k2] by {
                if j == k {
                    assert(self.open@[j] == open_before[open_before.len() - 1]);
                } else {
                    assert(self.open@[j] == open_before[j]);
                }
            }
        }
        current
    }

    /// Expands the popped cell `current`: closes it (which restores the
    /// frontier coverage its removal from the open set left behind) and
    /// evaluates its four neighbors.
    #[verifier::loop_isolation(false)]
    #[verifier::rlimit(100)]
    fn expand_current<T: LocationChecker>(
        &mut self,
        checker: &T,
        current: i32,
        Ghost(s0): Ghost<i32>,
        Ghost(iterations): Ghost<int>,
        Ghost(popped): Ghost<Set<int>>,
        Ghost(gx): Ghost<int>,
        Ghost(gy): Ghost<int>,
        Ghost(dd2): Ghost<int>,
    )
        requires
            old(self).wf(),
            old(self).parents_inv(s0),
            old(self).g_bounded(1 + 4 * iterations),
            0 <= iterations < old(self).max_iterations,
            old(self).open_ok(),
            old(self).cf_passable(checker),
            gx == old(self).goal_x as int,
            gy == old(self).goal_y as int,
            valid_coords(old(self).width as int, old(self).height as int, gx, gy),
            0 <= s0 < old(self).width as int * old(self).height as int,
            0 <= current < old(self).width as int * old(self).height as int,
            old(self).g_score@[current as int] != INFINITY,
            !popped.contains(current as int),
            !cell_set_contents(old(self).open_set).contains(current),
            !(cell_dist_sq(old(self).width as int, current as int, gx, gy) <= dd2),
            old(self).popped_core(checker, popped, gx, gy, dd2),
            forall|c: int|
                #[trigger] popped.contains(c) ==> expansion_covered(
                    old(self).width as int,
                    old(self).height as int,
                    cell_set_contents(old(self).closed),
                    cell_set_contents(old(self).open_set).insert(current),
                    c,
                ),
            old(self).open_frontier_ok(popped.insert(current as int)),
        ensures
            final(self).wf(),
            final(self).width == old(self).width,
            final(self).height == old(self).height,
            final(self).goal_x == old(self).goal_x,
            final(self).goal_y == old(self).goal_y,
            final(self).max_iterations == old(self).max_iterations,
            final(self).parents_inv(s0),
            final(self).g_bounded(1 + 4 * (iterations + 1)),
            final(self).open_ok(),
            final(self).cf_passable(checker),
            final(self).popped_core(checker, popped.insert(current as int), gx, gy, dd2),
            final(self).popped_covered(popped.insert(current as int)),
            final(self).open_frontier_ok(popped.insert(current as int)),
    {
        let ghost w = self.width as int;
        let ghost h = self.height as int;
        let ghost n = w * h;
        let ghost popped1 = popped.insert(current as int);
        proof {
            lemma_cell_coords_bijective(w, h, current as int);
        }
        self.closed.insert(current);
        proof {
            // closing the popped cell repairs the coverage its removal
            // from the open set left behind
            assert forall|c: int| #[trigger] popped.contains(c) implies expansion_covered(
                w,
                h,
                cell_set_contents(self.closed),
                cell_set_contents(self.open_set),
                c,
            ) by {
                assert(expansion_covered(
                    w,
                    h,
                    cell_set_contents(old(self).closed),
                    cell_set_contents(old(self).open_set).insert(current),
                    c,
                ));
            }
            assert forall|c: i32|
                #[trigger] cell_set_contents(self.closed).contains(c) implies (popped1.contains(
                c as int,
            ) || (0 <= c < n && !checker.passable_spec(
                cell_point(w, c as int).x,
                cell_point(w, c as int).y,
            ))) by {
                if c != current {
                    assert(cell_set_contents(old(self).closed).contains(c));
                }
            }
            assert forall|c: i32| #[trigger] self.cf_map().dom().contains(c) implies self
                .cf_entry_ok(s0, c) by {
                assert(old(self).cf_map().dom().contains(c));
                assert(old(self).cf_entry_ok(s0, c));
            }
            assert forall|c: i32| #[trigger] self.cf_map().dom().contains(c) implies
                checker.passable_spec(
                cell_point(w, c as int).x,
                cell_point(w, c as int).y,
            ) by {
                assert(old(self).cf_map().dom().contains(c));
            }
        }
        let neighbors = self.get_neighbors(current);
        let mut i: usize = 0;
        while i < 4
            invariant
                i <= 4,
                self.wf(),
                w == self.width as int,
                h == self.height as int,
                n == w * h,
                *old(self) == (PathFinder {
                    f_score: old(self).f_score,
                    g_score: old(self).g_score,
                    open: old(self).open,
                    open_set: old(self).open_set,
                    closed: old(self).closed,
                    came_from: old(self).came_from,
                    ..*self
                }),
                self.parents_inv(s0),
                self.g_bounded(1 + 4 * iterations + i as int),
                self.open_ok(),
                self.cf_passable(checker),
                0 <= current < n,
                self.closed_cells().contains(current),
                self.g_score@[current as int] != INFINITY,
                self.popped_core(checker, popped1, gx, gy, dd2),
                self.popped_covered(popped),
                self.open_frontier_ok(popped1),
                neighbors@.len() == 4,
                forall|j: int|
                    0 <= j < 4 && neighbors@[j] != -1 ==> 0 <= #[trigger] neighbors@[j] < n
                        && cardinal_adjacent(w, current as int, neighbors@[j] as int),
                forall|j: int|
                    0 <= j < i && neighbors@[j] != -1 ==> in_frontier(
                        cell_set_contents(self.closed),
                        cell_set_contents(self.open_set),
                        (#[trigger] neighbors@[j]) as int,
                    ),
            decreases 4 - i,
        {
            let neighbor = neighbors[i];
            if neighbor != -1 {
                let ghost pre = *self;
                self.process_neighbor(
                    checker,
                    current,
                    neighbor,
                    Ghost(s0),
                    Ghost(1 + 4 * iterations + i as int),
                );
                proof {
                    let nb = cell_point(w, neighbor as int);
                    lemma_cell_coords_bijective(w, h, neighbor as int);
                    if pre.closed_cells().contains(neighbor) {
                        assert(*self == pre);
                    } else if !checker.passable_spec(nb.x, nb.y) {
                        assert(cell_set_contents(self.closed) == cell_set_contents(
                            pre.closed,
                        ).insert(neighbor));
                        assert forall|c: int| #[trigger] popped.contains(c) implies
                            expansion_covered(
                            w,
                            h,
                            cell_set_contents(self.closed),
                            cell_set_contents(self.open_set),
                            c,
                        ) by {
                            assert(expansion_covered(
                                w,
                                h,
                                cell_set_contents(pre.closed),
                                cell_set_contents(pre.open_set),
                                c,
                            ));
                        }
                    } else {
                        assert(cell_set_contents(self.open_set) == cell_set_contents(
                            pre.open_set,
                        ).insert(neighbor));
                        assert(!popped1.contains(neighbor as int));
                        assert forall|c: int| #[trigger] popped.contains(c) implies
                            expansion_covered(
                            w,
                            h,
                            cell_set_contents(self.closed),
                            cell_set_contents(self.open_set),
                            c,
                        ) by {
                            assert(expansion_covered(
                                w,
                                h,
                                cell_set_contents(pre.closed),
                                cell_set_contents(pre.open_set),
                                c,
                            ));
                        }
                        lemma_open_push_shape(
                            pre.open@,
                            self.open@,
                            cell_set_contents(pre.open_set),
                            cell_set_contents(self.open_set),
                            neighbor,
                            popped1,
                        );
                    }
                }
            }
            i += 1;
        }
        proof {
            lemma_cell_coords_bijective(w, h, current as int);
            let cx_ = cell_x(w, current as int);
            let cy_ = cell_y(w, current as int);
            assert(cx_ + (cy_ - 1) * w == current - w && cx_ + (cy_ + 1) * w == current + w)
                by (nonlinear_arith)
                requires
                    current as int == cx_ + cy_ * w,
            ;
            if cy_ > 0 {
                lemma_cell_index_bijective(w, h, cx_, cy_ - 1);
                assert(neighbors@[0] as int == current - w && neighbors@[0] != -1);
            }
            if cy_ < h - 1 {
                lemma_cell_index_bijective(w, h, cx_, cy_ + 1);
                assert(neighbors@[1] as int == current + w && neighbors@[1] != -1);
            }
            if cx_ < w - 1 {
                lemma_cell_index_bijective(w, h, cx_ + 1, cy_);
                assert(neighbors@[2] as int == current + 1 && neighbors@[2] != -1);
            }
            if cx_ > 0 {
                lemma_cell_index_bijective(w, h, cx_ - 1, cy_);
                assert(neighbors@[3] as int == current - 1 && neighbors@[3] != -1);
            }
            assert(expansion_covered(
                w,
                h,
                cell_set_contents(self.closed),
                cell_set_contents(self.open_set),
                current as int,
            ));
            assert forall|c: int| #[trigger] popped1.contains(c) implies expansion_covered(
                w,
                h,
                cell_set_contents(self.closed),
                cell_set_contents(self.open_set),
                c,
            ) by {}
        }
    }

    /// Evaluates one discovered neighbor of the cell being expanded:
    /// closes it when impassable, and otherwise relaxes its scores and
    /// parent record when this expansion reaches it more cheaply.
    fn process_neighbor<T: LocationChecker>(
        &mut self,
        checker: &T,
        current: i32,
        neighbor: i32,
        Ghost(s0): Ghost<i32>,
        Ghost(bound): Ghost<int>,
    )
        requires
            old(self).wf(),
            old(self).parents_inv(s0),
            old(self).g_bounded(bound),
            0 <= bound < 0x2_0000_0000,
            old(self).open_ok(),
            old(self).cf_passable(checker),
            valid_coords(
                old(self).width as int,
                old(self).height as int,
                old(self).goal_x as int,
                old(self).goal_y as int,
            ),
            0 <= current < old(self).width as int * old(self).height as int,
            old(self).closed_cells().contains(current),
            old(self).g_score@[current as int] != INFINITY,
            0 <= neighbor < old(self).width as int * old(self).height as int,
            cardinal_adjacent(old(self).width as int, current as int, neighbor as int),
        ensures
            final(self).wf(),
            final(self).width == old(self).width,
            final(self).height == old(self).height,
            final(self).goal_x == old(self).goal_x,
            final(self).goal_y == old(self).goal_y,
            final(self).max_iterations == old(self).max_iterations,
            final(self).parents_inv(s0),
            final(self).g_bounded(bound + 1),
            final(self).open_ok(),
            final(self).cf_passable(checker),
            final(self).closed_cells().contains(current),
            final(self).g_score@[current as int] == old(self).g_score@[current as int],
            old(self).closed_cells().contains(neighbor) ==> *final(self) == *old(self),
            ({
                let nb = cell_point(old(self).width as int, neighbor as int);
                &&& ((!old(self).closed_cells().contains(neighbor) && !checker.passable_spec(
                    nb.x,
                    nb.y,
                )) ==> (cell_set_contents(final(self).closed) == cell_set_contents(
                    old(self).closed,
                ).insert(neighbor) && final(self).open@ == old(self).open@ && cell_set_contents(
                    final(self).open_set,
                ) == cell_set_contents(old(self).open_set)))
                &&& ((!old(self).closed_cells().contains(neighbor) && checker.passable_spec(
                    nb.x,
                    nb.y,
                )) ==> (cell_set_contents(final(self).closed) == cell_set_contents(old(self).closed)
                    && cell_set_contents(final(self).open_set) == cell_set_contents(
                    old(self).open_set,
                ).insert(neighbor) && (cell_set_contents(old(self).open_set).contains(neighbor)
                    ==> final(self).open@ == old(self).open@) && (!cell_set_contents(
                    old(self).open_set,
                ).contains(neighbor) ==> (final(self).open@.len() == old(self).open@.len() + 1 && (
                forall|j: int|
                    0 <= j < old(self).open@.len() ==> #[trigger] final(self).open@[j] == old(
                        self,
                    ).open@[j]) && final(self).open@.last().index == neighbor))))
            }),
    {
        let ghost w = self.width as int;
        let ghost h = self.height as int;
        if self.closed.contains(neighbor) {
            return ;
        }
        proof {
            lemma_cell_coords_bijective(w, h, neighbor as int);
        }
        let neighbor_x = neighbor % self.width;
        let neighbor_y = neighbor / self.width;

        if !checker.passable(neighbor_x, neighbor_y) {
            self.closed.insert(neighbor);
            proof {
                assert forall|c: i32| #[trigger] self.cf_map().dom().contains(c) implies self
                    .cf_entry_ok(s0, c) by {
                    assert(old(self).cf_map().dom().contains(c));
                    assert(old(self).cf_entry_ok(s0, c));
                }
            }
        } else {
            let tentative_g_score = self.g_score[current as usize] + self.get_cost(
                current,
                neighbor,
            );
            if tentative_g_score >= self.g_score[neighbor as usize] {
                let f_here = self.f_score[neighbor as usize];
                self.push_to_open_set(neighbor, f_here);
            } else {
                self.came_from.insert(neighbor, current);
                self.g_score.set(neighbor as usize, tentative_g_score);
                let nd = self.dist_squared(neighbor);
                proof {
                    assert(tentative_g_score + nd < 0x7FFF_FFFF_FFFF_FFFFi64) by (nonlinear_arith)
                        requires
                            0 <= tentative_g_score <= 0x2_0000_0000,
                            0 <= nd,
                            nd <= (w - 1) * (w - 1) + (h - 1) * (h - 1),
                            1 <= w <= 0x7FFF_FFFF,
                            1 <= h <= 0x7FFF_FFFF,
                    ;
                }
                let f_new = tentative_g_score + nd;
                self.f_score.set(neighbor as usize, f_new);
                self.push_to_open_set(neighbor, f_new);
                proof {
                    let oldm = old(self).cf_map();
                    let newm = self.cf_map();
                    let oldg = old(self).g_score@;
                    let newg = self.g_score@;
                    assert(newm == oldm.insert(neighbor, current));
                    assert(newg == oldg.update(neighbor as int, tentative_g_score));
                    assert(oldg[s0 as int] == 0);
                    assert(tentative_g_score >= 1);
                    assert(neighbor != s0);
                    assert(self.closed_cells() == old(self).closed_cells());
                    assert forall|c: i32| #[trigger] newm.dom().contains(c) implies self
                        .cf_entry_ok(s0, c) by {
                        if c == neighbor {
                            assert(newm[c] == current);
                            assert(self.closed_cells().contains(current));
                            assert(current != neighbor);
                            assert(newg[current as int] == oldg[current as int]);
                            assert(cardinal_adjacent(w, neighbor as int, current as int));
                        } else {
                            assert(oldm.dom().contains(c));
                            assert(old(self).cf_entry_ok(s0, c));
                            let pp = oldm[c];
                            assert(old(self).closed_cells().contains(pp));
                            assert(!old(self).closed_cells().contains(neighbor));
                            assert(pp != neighbor);
                            assert(newg[c as int] == oldg[c as int]);
                            assert(newg[pp as int] == oldg[pp as int]);
                        }
                    }
                }
            }
        }
    }

    /// The squared Euclidean distance from `cell` to the current goal.
    fn dist_squared(&self, cell: i32) -> (r: i64)
        requires
            self.wf(),
            0 <= cell < self.width * self.height,
            valid_coords(self.width as int, self.height as int, self.goal_x as int, self.goal_y as int),
        ensures
            r == cell_dist_sq(self.width as int, cell as int, self.goal_x as int, self.goal_y as int),
            0 <= r,
            r <= (self.width - 1) * (self.width - 1) + (self.height - 1) * (self.height - 1),
    {
        proof {
            lemma_cell_coords_bijective(self.width as int, self.height as int, cell as int);
        }
        let s_x = cell % self.width;
        let s_y = cell / self.width;
        let x_part = (s_x - self.goal_x) as i64;
        let y_part = (s_y - self.goal_y) as i64;
        proof {
            let w = self.width as int;
            let h = self.height as int;
            assert(w <= w * h && h <= w * h) by (nonlinear_arith)
                requires
                    1 <= w,
                    1 <= h,
            ;
            assert(0 <= x_part * x_part <= (w - 1) * (w - 1) && 0 <= y_part * y_part <= (h - 1) * (
            h - 1)) by (nonlinear_arith)
                requires
                    -(w - 1) <= x_part <= w - 1,
                    -(h - 1) <= y_part <= h - 1,
            ;
            assert((w - 1) * (w - 1) + (h - 1) * (h - 1) < 0x7FFF_FFFF_FFFF_FFFFi64)
                by (nonlinear_arith)
                requires
                    1 <= w <= 0x7FFF_FFFF,
                    1 <= h <= 0x7FFF_FFFF,
            ;
        }
        x_part * x_part + y_part * y_part
    }

    /// Whether `current` lies within the circular acceptance radius of the
    /// goal, given the squared radius.
    fn is_goal(&self, current: i32, dest_dist_squared: i64) -> (r: bool)
        requires
            self.wf(),
            0 <= current < self.width * self.height,
            valid_coords(self.width as int, self.height as int, self.goal_x as int, self.goal_y as int),
        ensures
            r == (cell_dist_sq(
                self.width as int,
                current as int,
                self.goal_x as int,
                self.goal_y as int,
            ) <= dest_dist_squared),
    {
        self.dist_squared(current) <= dest_dist_squared
    }

    /// The point at the given linear cell index.
    fn get_point(&self, index: i32) -> (p: Point)
        requires
            self.wf(),
            0 <= index < self.width * self.height,
        ensures
            p.x == cell_x(self.width as int, index as int),
            p.y == cell_y(self.width as int, index as int),
            valid_coords(self.width as int, self.height as int, p.x as int, p.y as int),
    {
        proof {
            lemma_cell_coords_bijective(self.width as int, self.height as int, index as int);
        }
        Point::new(index % self.width, index / self.width)
    }

    /// The cost of one step between adjacent cells: constant, an extension
    /// point for future terrain cost.
    fn get_cost(&self, _from: i32, _to: i32) -> (c: i64)
        ensures
            c == 1,
    {
        1
    }

    /// The up-to-four cardinal neighbors of `point`, `-1` standing for a
    /// neighbor that would fall off the grid.
    fn get_neighbors(&self, point: i32) -> (r: Vec<i32>)
        requires
            self.wf(),
            0 <= point < self.width * self.height,
        ensures
            r@.len() == 4,
            forall|j: int|
                0 <= j < 4 && r@[j] != -1 ==> 0 <= #[trigger] r@[j] < self.width * self.height
                    && cardinal_adjacent(self.width as int, point as int, r@[j] as int),
            r@[0] as int == (if cell_y(self.width as int, point as int) > 0 {
                point - self.width
            } else {
                -1
            }),
            r@[1] as int == (if cell_y(self.width as int, point as int) < self.height - 1 {
                point + self.width
            } else {
                -1
            }),
            r@[2] as int == (if cell_x(self.width as int, point as int) < self.width - 1 {
                point + 1
            } else {
                -1
            }),
            r@[3] as int == (if cell_x(self.width as int, point as int) > 0 {
                point - 1
            } else {
                -1
            }),
    {
        let width = self.width;
        let height = self.height;
        proof {
            lemma_cell_coords_bijective(width as int, height as int, point as int);
        }
        let x = point % width;
        let y = point / width;
        let ghost xi = x as int;
        let ghost yi = y as int;

        proof {
            assert(xi + (yi - 1) * width == point - width && xi + (yi + 1) * width == point + width)
                by (nonlinear_arith)
                requires
                    point == xi + yi * width,
            ;
        }
        let mut neighbors: Vec<i32> = Vec::new();
        let top = if y > 0 {
            proof {
                lemma_cell_index_bijective(width as int, height as int, xi, yi - 1);
            }
            point - width
        } else {
            -1
        };
        let bottom = if y < height - 1 {
            proof {
                lemma_cell_index_bijective(width as int, height as int, xi, yi + 1);
            }
            point + width
        } else {
            -1
        };
        let right = if x < width - 1 {
            proof {
                lemma_cell_index_bijective(width as int, height as int, xi + 1, yi);
            }
            point + 1
        } else {
            -1
        };
        let left = if x > 0 {
            proof {
                lemma_cell_index_bijective(width as int, height as int, xi - 1, yi);
            }
            point - 1
        } else {
            -1
        };
        neighbors.push(top);
        neighbors.push(bottom);
        neighbors.push(right);
        neighbors.push(left);
        neighbors
    }

    /// Adds `index` to the open set unless it is already there.
    fn push_to_open_set(&mut self, index: i32, f_score: i64)
        ensures
            final(self).open@ == (if cell_set_contents(old(self).open_set).contains(index) {
                old(self).open@
            } else {
                old(self).open@.push(OpenEntry { f_score, index })
            }),
            cell_set_contents(final(self).open_set) == cell_set_contents(
                old(self).open_set,
            ).insert(index),
            final(self).width == old(self).width,
            final(self).height == old(self).height,
            final(self).f_score == old(self).f_score,
            final(self).g_score == old(self).g_score,
            final(self).closed == old(self).closed,
            final(self).came_from == old(self).came_from,
            final(self).goal_x == old(self).goal_x,
            final(self).goal_y == old(self).goal_y,
            final(self).max_iterations == old(self).max_iterations,
    {
        if self.open_set.contains(index) {
            proof {
                assert(cell_set_contents(self.open_set) =~= cell_set_contents(
                    self.open_set,
                ).insert(index));
            }
            return ;
        }
        self.open_set.insert(index);
        self.open.push(OpenEntry::new(index, f_score));
    }

    /// Removes and returns the cell of the first open entry holding the
    /// lowest recorded f-score, so that equal inputs pop equal cells.
    fn pop_lowest_f_score_in_open_set(&mut self) -> (r: i32)
        requires
            old(self).open@.len() > 0,
        ensures
            exists|k: int|
                {
                    &&& 0 <= k < old(self).open@.len()
                    &&& (#[trigger] old(self).open@[k]).index == r
                    &&& (forall|j: int|
                        0 <= j < old(self).open@.len() ==> old(self).open@[k].f_score <= (
                        #[trigger] old(self).open@[j]).f_score)
                    &&& (forall|j: int|
                        0 <= j < k ==> (#[trigger] old(self).open@[j]).f_score > old(
                            self,
                        ).open@[k].f_score)
                    &&& final(self).open@ == old(self).open@.update(
                        k,
                        old(self).open@.last(),
                    ).drop_last()
                },
            final(self).open@.len() == old(self).open@.len() - 1,
            forall|j: int|
                0 <= j < final(self).open@.len() ==> exists|k: int|
                    0 <= k < old(self).open@.len() && #[trigger] final(self).open@[j] == old(
                        self,
                    ).open@[k],
            cell_set_contents(final(self).open_set) == cell_set_contents(old(self).open_set).remove(
                r,
            ),
            final(self).width == old(self).width,
            final(self).height == old(self).height,
            final(self).f_score == old(self).f_score,
            final(self).g_score == old(self).g_score,
            final(self).closed == old(self).closed,
            final(self).came_from == old(self).came_from,
            final(self).goal_x == old(self).goal_x,
            final(self).goal_y == old(self).goal_y,
            final(self).max_iterations == old(self).max_iterations,
    {
        let mut best: usize = 0;
        let mut i: usize = 1;
        while i < self.open.len()
            invariant
                0 <= best < i,
                i <= self.open.len(),
                self.open@.len() > 0,
                forall|j: int|
                    0 <= j < i ==> self.open@[best as int].f_score <= (
                    #[trigger] self.open@[j]).f_score,
                forall|j: int|
                    0 <= j < best ==> (#[trigger] self.open@[j]).f_score
                        > self.open@[best as int].f_score,
            decreases self.open@.len() - i,
        {
            if self.open[i].f_score < self.open[best].f_score {
                best = i;
            }
            i += 1;
        }
        let entry = self.open.swap_remove(best);
        self.open_set.remove(entry.index);
        entry.index
    }
}

/// Membership of a cell in either frontier set.
spec fn in_frontier(closed: Set<i32>, open_set: Set<i32>, c: int) -> bool {
    closed.contains(c as i32) || open_set.contains(c as i32)
}

/// Every on-grid cardinal neighbor of `c` has been discovered: each
/// stands in the closed set or in the open set.
spec fn expansion_covered(w: int, h: int, closed: Set<i32>, open_set: Set<i32>, c: int) -> bool {
    &&& (cell_y(w, c) > 0 ==> in_frontier(closed, open_set, c - w))
    &&& (cell_y(w, c) < h - 1 ==> in_frontier(closed, open_set, c + w))
    &&& (cell_x(w, c) < w - 1 ==> in_frontier(closed, open_set, c + 1))
    &&& (cell_x(w, c) > 0 ==> in_frontier(closed, open_set, c - 1))
}

/// The open membership set holds exactly the cells of the open entries.
spec fn open_mirrors(open: Seq<OpenEntry>, open_set: Set<i32>) -> bool {
    forall|v: i32|
        #[trigger] open_set.contains(v) <==> (exists|j: int|
            0 <= j < open.len() && (#[trigger] open[j]).index == v)
}

/// No two open entries name the same cell.
spec fn open_indices_distinct(open: Seq<OpenEntry>) -> bool {
    forall|j: int, k: int| 0 <= j < k < open.len() ==> open[j].index != open[k].index
}

/// No open entry names an already expanded cell.
spec fn open_avoids(open: Seq<OpenEntry>, popped: Set<int>) -> bool {
    forall|j: int| 0 <= j < open.len() ==> !popped.contains((#[trigger] open[j]).index as int)
}

impl PathFinder {
    /// The expanded cells: on the grid, never within the acceptance
    /// radius, inside the closed set; and the closed set holds nothing
    /// but expanded and impassable cells.
    spec fn popped_core<T: LocationChecker>(
        &self,
        checker: &T,
        popped: Set<int>,
        gx: int,
        gy: int,
        dd2: int,
    ) -> bool {
        let w = self.width as int;
        let h = self.height as int;
        &&& popped.finite()
        &&& (forall|c: int| #[trigger] popped.contains(c) ==> 0 <= c < w * h)
        &&& (forall|c: int| #[trigger] popped.contains(c) ==> !(cell_dist_sq(w, c, gx, gy) <= dd2))
        &&& (forall|c: int|
            #[trigger] popped.contains(c) ==> cell_set_contents(self.closed).contains(c as i32))
        &&& (forall|c: i32|
            #[trigger] cell_set_contents(self.closed).contains(c) ==> (popped.contains(c as int)
                || (0 <= c < w * h && !checker.passable_spec(
                cell_point(w, c as int).x,
                cell_point(w, c as int).y,
            ))))
    }

    /// Every expanded cell's whole neighborhood has been discovered.
    spec fn popped_covered(&self, popped: Set<int>) -> bool {
        forall|c: int|
            #[trigger] popped.contains(c) ==> expansion_covered(
                self.width as int,
                self.height as int,
                cell_set_contents(self.closed),
                cell_set_contents(self.open_set),
                c,
            )
    }

    /// The open bookkeeping invariant.
    spec fn open_frontier_ok(&self, popped: Set<int>) -> bool {
        &&& open_mirrors(self.open@, cell_set_contents(self.open_set))
        &&& open_indices_distinct(self.open@)
        &&& open_avoids(self.open@, popped)
    }
}

/// Removing the open entry at `k` keeps the open bookkeeping exact: the
/// membership set loses exactly that cell, no duplicate appears, and no
/// remaining entry names an expanded cell.
proof fn lemma_pop_shape(
    pre: Seq<OpenEntry>,
    post: Seq<OpenEntry>,
    pre_set: Set<i32>,
    post_set: Set<i32>,
    k: int,
    r: i32,
    popped: Set<int>,
)
    requires
        0 <= k < pre.len(),
        pre[k].index == r,
        post == pre.update(k, pre.last()).drop_last(),
        post_set == pre_set.remove(r),
        open_mirrors(pre, pre_set),
        open_indices_distinct(pre),
        open_avoids(pre, popped),
    ensures
        open_mirrors(post, post_set),
        open_indices_distinct(post),
        open_avoids(post, popped.insert(r as int)),
{
    assert forall|j: int| 0 <= j < post.len() implies (#[trigger] post[j] == pre[j] && j != k) || (j
        == k && post[j] == pre.last()) by {}
    assert forall|v: i32| #[trigger] post_set.contains(v) implies (exists|j: int|
        0 <= j < post.len() && (#[trigger] post[j]).index == v) by {
        assert(pre_set.contains(v) && v != r);
        let j = choose|j: int| 0 <= j < pre.len() && (#[trigger] pre[j]).index == v;
        assert(j != k);
        if j < pre.len() - 1 {
            assert(post[j].index == v);
        } else {
            assert(pre.last().index == v);
            assert(k < pre.len() - 1);
            assert(post[k].index == v);
        }
    }
    assert forall|v: i32|
        (exists|j: int| 0 <= j < post.len() && (#[trigger] post[j]).index == v) implies
        #[trigger] post_set.contains(v) by {
        let j = choose|j: int| 0 <= j < post.len() && (#[trigger] post[j]).index == v;
        assert(pre_set.contains(v));
        if v == r {
            if j == k {
                assert(pre.last() == pre[pre.len() - 1]);
                assert(pre[pre.len() - 1].index == r);
                assert(pre.len() - 1 == k);
                assert(false);
            } else {
                assert(pre[j].index == r);
                assert(false);
            }
        }
    }
    assert forall|j: int, k2: int| 0 <= j < k2 < post.len() implies post[j].index
        != post[k2].index by {
        let a = if j == k { pre.len() - 1 } else { j };
        let b = if k2 == k { pre.len() - 1 } else { k2 };
        assert(post[j] == pre[a] && post[k2] == pre[b]);
        assert(a != b);
    }
    assert forall|j: int| 0 <= j < post.len() implies !popped.insert(r as int).contains(
        (#[trigger] post[j]).index as int,
    ) by {
        let a = if j == k { pre.len() - 1 } else { j };
        assert(post[j] == pre[a]);
        assert(!popped.contains(pre[a].index as int));
        if post[j].index == r {
            assert(a != k);
            assert(pre[a].index == pre[k].index);
            assert(false);
        }
    }
}

/// Inserting a cell into the open set keeps the open bookkeeping exact,
/// whether or not an entry had to be appended.
proof fn lemma_open_push_shape(
    pre: Seq<OpenEntry>,
    post: Seq<OpenEntry>,
    pre_set: Set<i32>,
    post_set: Set<i32>,
    nb: i32,
    popped1: Set<int>,
)
    requires
        post_set == pre_set.insert(nb),
        open_mirrors(pre, pre_set),
        open_indices_distinct(pre),
        open_avoids(pre, popped1),
        !popped1.contains(nb as int),
        pre_set.contains(nb) ==> post == pre,
        !pre_set.contains(nb) ==> (post.len() == pre.len() + 1 && (forall|j: int|
            0 <= j < pre.len() ==> #[trigger] post[j] == pre[j]) && post.last().index == nb),
    ensures
        open_mirrors(post, post_set),
        open_indices_distinct(post),
        open_avoids(post, popped1),
{
    if pre_set.contains(nb) {
        assert(post_set =~= pre_set);
        return ;
    }
    assert forall|v: i32| #[trigger] post_set.contains(v) implies (exists|j: int|
        0 <= j < post.len() && (#[trigger] post[j]).index == v) by {
        if v == nb {
            assert(post[post.len() - 1].index == v);
        } else {
            let j = choose|j: int| 0 <= j < pre.len() && (#[trigger] pre[j]).index == v;
            assert(post[j].index == v);
        }
    }
    assert forall|v: i32|
        (exists|j: int| 0 <= j < post.len() && (#[trigger] post[j]).index == v) implies
        #[trigger] post_set.contains(v) by {
        let j = choose|j: int| 0 <= j < post.len() && (#[trigger] post[j]).index == v;
        if j < pre.len() {
            assert(pre[j].index == v);
        } else {
            assert(post[j] == post.last());
        }
    }
    assert forall|j: int, k: int| 0 <= j < k < post.len() implies post[j].index
        != post[k].index by {
        if k < pre.len() {
        } else {
            assert(post[k].index == nb);
            assert(pre_set.contains(pre[j].index));
        }
    }
    assert forall|j: int| 0 <= j < post.len() implies !popped1.contains(
        (#[trigger] post[j]).index as int,
    ) by {
        if j < pre.len() {
            assert(post[j] == pre[j]);
        } else {
            assert(post[j].index == nb);
        }
    }
}

/// Where the search loop stopped without an answer under a budget that
/// covers the grid, no admitted goal walk exists: either every cell was
/// expanded, including the goal cell the expansion would have reported,
/// or the drained frontier traps any walk inside the expanded region.
proof fn lemma_search_exhausted<T: LocationChecker>(
    checker: &T,
    w: int,
    h: int,
    closed: Set<i32>,
    open_set: Set<i32>,
    open: Seq<OpenEntry>,
    popped: Set<int>,
    iterations: int,
    m0: int,
    s0: i32,
    start_x: int,
    start_y: int,
    dest_x: i32,
    dest_y: i32,
    dest_dist: i32,
    gx: int,
    gy: int,
    dd2: int,
)
    requires
        w >= 1,
        h >= 1,
        w * h <= 0x7FFF_FFFF,
        !(iterations < m0 && open.len() > 0),
        0 <= iterations,
        popped.len() == iterations as nat,
        popped.finite(),
        forall|c: int| #[trigger] popped.contains(c) ==> 0 <= c < w * h,
        forall|c: int| #[trigger] popped.contains(c) ==> !(cell_dist_sq(w, c, gx, gy) <= dd2),
        forall|c: int|
            #[trigger] popped.contains(c) ==> expansion_covered(w, h, closed, open_set, c),
        forall|c: i32|
            #[trigger] closed.contains(c) ==> (popped.contains(c as int) || (0 <= c < w * h
                && !checker.passable_spec(cell_point(w, c as int).x, cell_point(w, c as int).y))),
        open_mirrors(open, open_set),
        iterations == 0 ==> open.len() == 1,
        iterations >= 1 ==> popped.contains(s0 as int),
        valid_coords(w, h, start_x, start_y),
        s0 == cell_index(w, start_x, start_y),
        (checker.goal_spec(dest_x, dest_y).0 as int, checker.goal_spec(dest_x, dest_y).1 as int)
            == (gx, gy),
        valid_coords(w, h, gx, gy),
        dd2 == dest_dist as int * dest_dist as int,
        m0 >= w * h,
    ensures
        !has_path_to_goal(checker, w, h, start_x, start_y, dest_x, dest_y, dest_dist),
{
    if !has_path_to_goal(checker, w, h, start_x, start_y, dest_x, dest_y, dest_dist) {
        return ;
    }
    let n = w * h;
    if open.len() > 0 {
        // the budget covered every cell, so every cell was expanded; yet
        // the goal cell itself was never popped
        lemma_dense_set(popped, n);
        let gc = cell_index(w, gx, gy);
        lemma_cell_index_bijective(w, h, gx, gy);
        assert(popped.contains(gc));
        assert(cell_x(w, gc) == gx && cell_y(w, gc) == gy);
        assert(cell_dist_sq(w, gc, gx, gy) == (gx - gx) * (gx - gx) + (gy - gy) * (gy - gy));
        assert(0 <= dd2) by (nonlinear_arith)
            requires
                dd2 == dest_dist as int * dest_dist as int,
        ;
        assert(false);
    } else {
        // the open set drained: the expanded region is closed under
        // passable steps and holds no goal cell, yet the admitted walk
        // ends in one
        assert forall|v: i32| !(#[trigger] open_set.contains(v)) by {
            if open_set.contains(v) {
                let j = choose|j: int| 0 <= j < open.len() && (#[trigger] open[j]).index == v;
            }
        }
        assert(open_set =~= Set::<i32>::empty());
        assert(iterations >= 1);
        assert(popped.contains(s0 as int));
        let p = choose|p: Seq<Point>|
            is_goal_walk(checker, w, h, start_x, start_y, dest_x, dest_y, dest_dist, p);
        assert forall|c: int| #[trigger] popped.contains(c) implies expansion_covered(
            w,
            h,
            closed,
            Set::<i32>::empty(),
            c,
        ) by {
            assert(expansion_covered(w, h, closed, open_set, c));
        }
        lemma_walk_trapped(checker, w, h, closed, popped, p, p.len() - 1, s0);
        let lastp = p[p.len() - 1];
        let cl = cell_index(w, lastp.x as int, lastp.y as int);
        lemma_cell_index_bijective(w, h, lastp.x as int, lastp.y as int);
        assert(cell_dist_sq(w, cl, gx, gy) == point_dist_sq(lastp, gx, gy));
        assert(point_dist_sq(lastp, gx, gy) <= dest_dist as int * dest_dist as int);
        assert(popped.contains(cl));
        assert(false);
    }
}

/// A set of at least `n` integers drawn from `[0, n)` holds every one of
/// them.
proof fn lemma_dense_set(a: Set<int>, n: int)
    requires
        a.finite(),
        n >= 0,
        a.len() >= n,
        forall|c: int| #[trigger] a.contains(c) ==> 0 <= c < n,
    ensures
        forall|c: int| 0 <= c < n ==> a.contains(c),
{
    broadcast use vstd::set_lib::group_set_lib_default;

    let range = vstd::set_lib::set_int_range(0, n);
    vstd::set_lib::lemma_int_range(0, n);
    assert forall|c: int| 0 <= c < n implies a.contains(c) by {
        if !a.contains(c) {
            let without = range.remove(c);
            assert(a.subset_of(without));
            assert(without.len() == n - 1);
            vstd::set_lib::lemma_len_subset(a, without);
            assert(false);
        }
    }
}

/// Where the search has drained its open set, every cell of an admitted
/// goal walk was expanded: the walk cannot escape the expanded region.
proof fn lemma_walk_trapped<T: LocationChecker>(
    checker: &T,
    w: int,
    h: int,
    closed: Set<i32>,
    popped: Set<int>,
    path: Seq<Point>,
    i: int,
    s0: i32,
)
    requires
        w >= 1,
        h >= 1,
        w * h <= 0x7FFF_FFFF,
        forall|c: int| #[trigger] popped.contains(c) ==> 0 <= c < w * h,
        forall|c: int|
            #[trigger] popped.contains(c) ==> expansion_covered(w, h, closed, Set::empty(), c),
        forall|c: i32|
            #[trigger] closed.contains(c) ==> (popped.contains(c as int) || (0 <= c < w * h
                && !checker.passable_spec(cell_point(w, c as int).x, cell_point(w, c as int).y))),
        path.len() >= 1,
        forall|j: int|
            0 <= j < path.len() ==> valid_coords(w, h, (#[trigger] path[j]).x as int, path[j].y as int),
        forall|j: int| 1 <= j < path.len() ==> cardinal_step(path[j - 1], #[trigger] path[j]),
        forall|j: int| 1 <= j < path.len() ==> checker.passable_spec((#[trigger] path[j]).x, path[j].y),
        s0 == cell_index(w, path[0].x as int, path[0].y as int),
        popped.contains(s0 as int),
        0 <= i < path.len(),
    ensures
        popped.contains(cell_index(w, path[i].x as int, path[i].y as int)),
    decreases i,
{
    let xi = path[i].x as int;
    let yi = path[i].y as int;
    lemma_cell_index_bijective(w, h, xi, yi);
    if i == 0 {
    } else {
        lemma_walk_trapped(checker, w, h, closed, popped, path, i - 1, s0);
        let xp = path[i - 1].x as int;
        let yp = path[i - 1].y as int;
        let cp = cell_index(w, xp, yp);
        let ci = cell_index(w, xi, yi);
        lemma_cell_index_bijective(w, h, xp, yp);
        assert(cardinal_step(path[i - 1], path[i]));
        assert(xp + (yp - 1) * w == cp - w && xp + (yp + 1) * w == cp + w) by (nonlinear_arith)
            requires
                cp == xp + yp * w,
        ;
        assert(expansion_covered(w, h, closed, Set::empty(), cp));
        if yi == yp - 1 {
            assert(ci == cp - w);
        } else if yi == yp + 1 {
            assert(ci == cp + w);
        } else if xi == xp + 1 {
            assert(ci == cp + 1);
        } else {
            assert(xi == xp - 1);
            assert(ci == cp - 1);
        }
        assert(in_frontier(closed, Set::empty(), ci));
        assert(closed.contains(ci as i32));
        assert(cell_point(w, ci).x == path[i].x && cell_point(w, ci).y == path[i].y);
        assert(checker.passable_spec(path[i].x, path[i].y));
        assert(popped.contains(ci));
    }
}

/// The point at the given linear cell index, as a spec value.
/// The point at the given linear cell index, as a spec value.
pub open spec fn cell_point(width: int, cell: int) -> Point {
    Point { x: cell_x(width, cell) as i32, y: cell_y(width, cell) as i32 }
}

impl PathFinder {
    spec fn cf_map(&self) -> Map<i32, i32> {
        cell_map_contents(self.came_from)
    }

    spec fn closed_cells(&self) -> Set<i32> {
        cell_set_contents(self.closed)
    }

    /// One parent record of the current search: the child `c` was reached
    /// from an already-expanded adjacent cell, one step deeper than it.
    spec fn cf_entry_ok(&self, s0: i32, c: i32) -> bool {
        let w = self.width as int;
        let n = self.width as int * self.height as int;
        let p = self.cf_map()[c];
        &&& 0 <= c < n
        &&& 0 <= p < n
        &&& c != s0
        &&& self.closed_cells().contains(p)
        &&& self.g_score@[c as int] != INFINITY
        &&& self.g_score@[p as int] != INFINITY
        &&& self.g_score@[c as int] == self.g_score@[p as int] + 1
        &&& cardinal_adjacent(w, c as int, p as int)
    }

    /// The parent map is a forest rooted at the start cell, with the
    /// g-score recording each recorded cell's depth.
    spec fn parents_inv(&self, s0: i32) -> bool {
        let n = self.width as int * self.height as int;
        &&& self.wf()
        &&& 0 <= s0 < n
        &&& self.g_score@[s0 as int] == 0
        &&& (forall|c: i32|
            #[trigger] self.cf_map().dom().contains(c) ==> self.cf_entry_ok(s0, c))
        &&& (forall|c: int|
            0 <= c < n && (#[trigger] self.g_score@[c]) != INFINITY ==> 0 <= self.g_score@[c])
        &&& (forall|c: int|
            0 <= c < n && (#[trigger] self.g_score@[c]) != INFINITY && c != s0
                ==> self.cf_map().dom().contains(c as i32))
    }

    /// Every finite g-score is at most `bound`.
    spec fn g_bounded(&self, bound: int) -> bool {
        forall|c: int|
            0 <= c < self.width as int * self.height as int && (#[trigger] self.g_score@[c])
                != INFINITY ==> self.g_score@[c] <= bound
    }

    /// Every open entry names a grid cell already reached.
    spec fn open_ok(&self) -> bool {
        forall|j: int|
            0 <= j < self.open@.len() ==> 0 <= (#[trigger] self.open@[j]).index < self.width as int
                * self.height as int && self.g_score@[self.open@[j].index as int] != INFINITY
    }

    /// Every recorded cell was reported passable by the checker.
    spec fn cf_passable<T: LocationChecker>(&self, checker: &T) -> bool {
        forall|c: i32|
            #[trigger] self.cf_map().dom().contains(c) ==> checker.passable_spec(
                cell_point(self.width as int, c as int).x,
                cell_point(self.width as int, c as int).y,
            )
    }

    /// Walks the parent map back from `current` to the start cell and
    /// returns the cells visited, in start-to-`current` order.
    #[verifier::loop_isolation(false)]
    #[verifier::rlimit(80)]
    fn reconstruct_path(&self, current: i32, Ghost(s0): Ghost<i32>) -> (path: Vec<Point>)
        requires
            self.parents_inv(s0),
            0 <= current < self.width as int * self.height as int,
            self.g_score@[current as int] != INFINITY,
        ensures
            path@.len() == self.g_score@[current as int] + 1,
            path@[0] == cell_point(self.width as int, s0 as int),
            path@[path@.len() - 1] == cell_point(self.width as int, current as int),
            forall|i: int|
                0 <= i < path@.len() ==> valid_coords(
                    self.width as int,
                    self.height as int,
                    (#[trigger] path@[i]).x as int,
                    path@[i].y as int,
                ),
            forall|i: int| 1 <= i < path@.len() ==> cardinal_step(path@[i - 1], #[trigger] path@[i]),
            forall|i: int|
                1 <= i < path@.len() ==> self.cf_map().dom().contains(
                    cell_index(self.width as int, (#[trigger] path@[i]).x as int, path@[i].y as int)
                        as i32,
                ),
    {
        let ghost w = self.width as int;
        let ghost h = self.height as int;
        let ghost n = w * h;
        let mut rev: Vec<Point> = Vec::new();
        let ghost mut cells: Seq<i32> = Seq::empty();
        let mut cur = current;
        rev.push(self.get_point(cur));
        proof {
            cells = cells.push(cur);
        }
        let mut done = false;
        while !done
            invariant
                done ==> !self.cf_map().dom().contains(cur),
                self.parents_inv(s0),
                0 <= cur < n,
                self.g_score@[cur as int] != INFINITY,
                w == self.width as int,
                h == self.height as int,
                n == w * h,
                self.g_score@[current as int] != INFINITY,
                0 <= current < n,
                rev@.len() == cells.len(),
                rev@.len() >= 1,
                rev@.len() == self.g_score@[current as int] - self.g_score@[cur as int] + 1,
                cells[0] == current,
                cells[cells.len() - 1] == cur,
                forall|i: int|
                    0 <= i < cells.len() ==> 0 <= #[trigger] cells[i] < n && rev@[i] == cell_point(
                        w,
                        cells[i] as int,
                    ),
                forall|i: int|
                    0 <= i < cells.len() ==> self.g_score@[(#[trigger] cells[i]) as int]
                        == self.g_score@[current as int] - i,
                forall|i: int|
                    0 <= i < cells.len() - 1 ==> self.cf_map().dom().contains(#[trigger] cells[i])
                        && self.cf_map()[cells[i]] == cells[i + 1],
            decreases self.g_score@[cur as int] + 1 - (if done { 1int } else { 0int }),
        {
            match self.came_from.get(cur) {
                None => {
                    done = true;
                },
                Some(parent) => {
                    proof {
                        assert(self.cf_map().dom().contains(cur));
                        assert(self.cf_entry_ok(s0, cur));
                    }
                    cur = parent;
                    rev.push(self.get_point(cur));
                    proof {
                        cells = cells.push(cur);
                    }
                },
            }
        }
        proof {
            // the walk ended at a cell with no parent: the start cell
            assert(!self.cf_map().dom().contains(cur));
            assert(cur == s0);
        }
        let mut path: Vec<Point> = Vec::new();
        let mut i = rev.len();
        while i > 0
            invariant
                i <= rev@.len(),
                path@.len() == rev@.len() - i,
                forall|j: int|
                    0 <= j < path@.len() ==> #[trigger] path@[j] == rev@[rev@.len() - 1 - j],
            decreases i,
        {
            i -= 1;
            path.push(rev[i]);
        }
        proof {
            let m = rev@.len() as int;
            assert forall|k: int| 1 <= k < m implies cardinal_step(path@[k - 1], #[trigger] path@[k])
                && self.cf_map().dom().contains(
                cell_index(w, path@[k].x as int, path@[k].y as int) as i32,
            ) by {
                let ci = cells[m - 1 - k];
                let pi = cells[m - k];
                assert(path@[k] == rev@[m - 1 - k]);
                assert(path@[k - 1] == rev@[m - k]);
                assert(self.cf_map().dom().contains(ci));
                assert(self.cf_entry_ok(s0, ci));
                lemma_cell_coords_bijective(w, h, ci as int);
                lemma_cell_coords_bijective(w, h, pi as int);
                assert(cardinal_adjacent(w, ci as int, pi as int));
            }
            assert forall|k: int| 0 <= k < m implies valid_coords(
                w,
                h,
                (#[trigger] path@[k]).x as int,
                path@[k].y as int,
            ) by {
                let ci = cells[m - 1 - k];
                lemma_cell_coords_bijective(w, h, ci as int);
            }
        }
        path
    }
}

/// Resets every score to the sentinel, keeping the array's size.
fn reset_scores(v: &mut Vec<i64>)
    ensures
        final(v)@.len() == old(v)@.len(),
        forall|i: int| 0 <= i < final(v)@.len() ==> final(v)@[i] == INFINITY,
{
    let len = v.len();
    let mut i: usize = 0;
    while i < len
        invariant
            i <= len,
            v@.len() == len,
            forall|j: int| 0 <= j < i ==> v@[j] == INFINITY,
        decreases len - i,
    {
        v.set(i, INFINITY);
        i += 1;
    }
}

/// A vector of `len` sentinel scores, one per grid cell.
fn filled_scores(len: usize) -> (v: Vec<i64>)
    ensures
        v@.len() == len,
        forall|i: int| 0 <= i < len ==> v@[i] == INFINITY,
{
    let mut v: Vec<i64> = Vec::new();
    let mut i: usize = 0;
    while i < len
        invariant
            i <= len,
            v@.len() == i,
            forall|j: int| 0 <= j < i ==> v@[j] == INFINITY,
        decreases len - i,
    {
        v.push(INFINITY);
        i += 1;
    }
    v
}

/// A checker over a fixed grid of blocked flags: the goal is the
/// destination itself and a cell is passable when it lies on the grid and
/// is not blocked.
pub struct GridChecker {
    pub width: i32,
    pub height: i32,
    pub blocked: Vec<bool>,
}

impl GridChecker {
    pub open spec fn wf(&self) -> bool {
        &&& 1 <= self.width
        &&& 1 <= self.height
        &&& self.width * self.height <= i32::MAX
        &&& self.blocked@.len() == self.width * self.height
    }

    pub fn new(width: i32, height: i32) -> (c: GridChecker)
        requires
            1 <= width,
            1 <= height,
            width * height <= i32::MAX,
        ensures
            c.wf(),
            c.width == width,
            c.height == height,
            forall|i: int| 0 <= i < width * height ==> !c.blocked@[i],
    {
        let dim = (width * height) as usize;
        let mut blocked: Vec<bool> = Vec::new();
        let mut i: usize = 0;
        while i < dim
            invariant
                i <= dim,
                blocked@.len() == i,
                forall|j: int| 0 <= j < i ==> !blocked@[j],
            decreases dim - i,
        {
            blocked.push(false);
            i += 1;
        }
        GridChecker { width, height, blocked }
    }

    /// Marks or unmarks one cell as blocked.
    pub fn set_blocked(&mut self, x: i32, y: i32, value: bool)
        requires
            old(self).wf(),
            valid_coords(old(self).width as int, old(self).height as int, x as int, y as int),
        ensures
            final(self).wf(),
            final(self).width == old(self).width,
            final(self).height == old(self).height,
            final(self).blocked@ == old(self).blocked@.update(
                cell_index(old(self).width as int, x as int, y as int),
                value,
            ),
    {
        proof {
            lemma_cell_index_bijective(self.width as int, self.height as int, x as int, y as int);
        }
        let idx = (x + y * self.width) as usize;
        self.blocked.set(idx, value);
    }
}

impl LocationChecker for GridChecker {
    open spec fn goal_spec(&self, x: i32, y: i32) -> (i32, i32) {
        (x, y)
    }

    open spec fn passable_spec(&self, x: i32, y: i32) -> bool {
        &&& valid_coords(self.width as int, self.height as int, x as int, y as int)
        &&& cell_index(self.width as int, x as int, y as int) < self.blocked@.len()
        &&& !self.blocked@[cell_index(self.width as int, x as int, y as int)]
    }

    fn goal(&self, x: i32, y: i32) -> (r: (i32, i32)) {
        (x, y)
    }

    fn passable(&self, x: i32, y: i32) -> (r: bool) {
        if x < 0 || y < 0 || x >= self.width || y >= self.height {
            return false;
        }
        proof {
            lemma_cell_index_bijective(self.width as int, self.height as int, x as int, y as int);
            assert(0 <= (y as int) * (self.width as int) <= 0x7FFF_FFFF * 0x7FFF_FFFF)
                by (nonlinear_arith)
                requires
                    0 <= y <= 0x7FFF_FFFF,
                    0 <= self.width <= 0x7FFF_FFFF,
            ;
        }
        let idx64 = (x as u64) + (y as u64) * (self.width as u64);
        if idx64 >= self.blocked.len() as u64 {
            return false;
        }
        let idx = idx64 as usize;
        !self.blocked[idx]
    }
}

} // verus!
