use vstd::prelude::*;
use crate::cell::{blocks_path, blocks_path_cell, TypeCase};
use crate::grid::{cell_at, grid_wf, manhattan, on_grid};

verus! {

/// A grid coordinate.
#[derive(Clone, Copy, Debug, Eq, Hash, Ord, PartialEq, PartialOrd, Structural)]
pub struct Pos(pub usize, pub usize);

/// The grid of blocked flags that the search runs on, row by row.
pub open spec fn bview(b: Seq<Vec<bool>>) -> Seq<Seq<bool>> {
    Seq::new(b.len(), |y: int| b[y]@)
}

/// The blocked flags a known map induces: a cell blocks travel exactly when
/// `blocks_path` holds of it.
pub open spec fn blocked_of(m: Seq<Vec<TypeCase>>) -> Seq<Seq<bool>> {
    Seq::new(m.len(), |y: int| Seq::new(m[y]@.len(), |x: int| blocks_path(m[y]@[x])))
}

/// A rectangular grid of blocked flags.
pub open spec fn bgrid_wf(b: Seq<Seq<bool>>, width: int, height: int) -> bool {
    &&& b.len() == height
    &&& forall|y: int| 0 <= y < height ==> (#[trigger] b[y]).len() == width
}

/// Two coordinates one cardinal step apart.
pub open spec fn adjacent(a: (usize, usize), c: (usize, usize)) -> bool {
    manhattan(a.0 as int, a.1 as int, c.0 as int, c.1 as int) == 1
}

/// A walk over `b` from `start` to `goal`: it begins at `start`, ends at
/// `goal`, moves one cardinal step at a time, and every cell after the first
/// lies on the grid and is unblocked. The first cell is not examined: the
/// search engine never tests the cell a walk departs from.
pub open spec fn is_path(b: Seq<Seq<bool>>, start: (usize, usize), goal: (usize, usize), p: Seq<(usize, usize)>) -> bool {
    &&& p.len() >= 1
    &&& p[0] == start
    &&& p[p.len() - 1] == goal
    &&& forall|i: int| 0 <= i < p.len() - 1 ==> adjacent(#[trigger] p[i], p[i + 1])
    &&& forall|i: int|
        1 <= i < p.len()
            ==> (#[trigger] p[i]).1 < b.len() && p[i].0 < b[p[i].1 as int].len()
                && !b[p[i].1 as int][p[i].0 as int]
}

/// A walk no other walk between the same endpoints undercuts.
pub open spec fn is_shortest_path(b: Seq<Seq<bool>>, start: (usize, usize), goal: (usize, usize), p: Seq<(usize, usize)>) -> bool {
    &&& is_path(b, start, goal, p)
    &&& forall|q: Seq<(usize, usize)>| is_path(b, start, goal, q) ==> p.len() <= #[trigger] q.len()
}

/// Some walk joins `start` to `goal` over `b`.
pub open spec fn has_path(b: Seq<Seq<bool>>, start: (usize, usize), goal: (usize, usize)) -> bool {
    exists|p: Seq<(usize, usize)>| is_path(b, start, goal, p)
}

/// Relies on seastar::astar: A* over a rectangular grid of blocked flags,
/// 4-directional unit-cost steps, Manhattan heuristic. A returned walk runs
/// from `start` to `goal`, both included, and no walk between the same
/// endpoints is shorter; `None` comes back exactly when no walk exists. The
/// engine stores step counts in 16 bits and indexes a flat array of
/// `width * height` cells, whence the bound on the grid's area and the bounds
/// checks on the endpoints.
#[verifier::external_body]
fn astar_search(blocked: &Vec<Vec<bool>>, start: (usize, usize), goal: (usize, usize)) -> (r: Option<Vec<(usize, usize)>>)
    requires
        bgrid_wf(bview(blocked@), blocked@[0]@.len() as int, blocked@.len() as int),
        blocked@.len() * blocked@[0]@.len() <= 0xffff,
        start.1 < blocked@.len() && start.0 < blocked@[0]@.len(),
        goal.1 < blocked@.len() && goal.0 < blocked@[0]@.len(),
    ensures
        match r {
            Some(p) => is_shortest_path(bview(blocked@), start, goal, p@),
            None => !has_path(bview(blocked@), start, goal),
        },
{
    let grid = seastar::Grid::from_2d(blocked.clone());
    let start_point = seastar::Point::new(start.0 as isize, start.1 as isize);
    let goal_point = seastar::Point::new(goal.0 as isize, goal.1 as isize);
    seastar::astar(&grid, start_point, goal_point)
        .map(|path| path.into_iter().map(|pt| (pt.x as usize, pt.y as usize)).collect())
}

/// The blocked flags of a known map, as an ordinary grid of booleans.
fn blocked_grid(map: &Vec<Vec<TypeCase>>, width: usize, height: usize) -> (b: Vec<Vec<bool>>)
    requires
        grid_wf(map@, width as int, height as int),
    ensures
        bview(b@) == blocked_of(map@),
        b@.len() == height,
        forall|y: int| 0 <= y < height ==> (#[trigger] b@[y])@.len() == width,
{
    let mut b: Vec<Vec<bool>> = Vec::new();
    let mut y: usize = 0;
    while y < height
        invariant
            grid_wf(map@, width as int, height as int),
            y <= height,
            b@.len() == y,
            forall|j: int| 0 <= j < y ==> (#[trigger] b@[j])@.len() == width,
            forall|j: int, i: int|
                0 <= j < y && 0 <= i < width ==> #[trigger] b@[j]@[i] == blocks_path(map@[j]@[i]),
        decreases height - y,
    {
        let mut row: Vec<bool> = Vec::new();
        let mut x: usize = 0;
        while x < width
            invariant
                grid_wf(map@, width as int, height as int),
                y < height,
                x <= width,
                row@.len() == x,
                forall|i: int| 0 <= i < x ==> #[trigger] row@[i] == blocks_path(map@[y as int]@[i]),
            decreases width - x,
        {
            row.push(blocks_path_cell(map[y][x]));
            x += 1;
        }
        b.push(row);
        y += 1;
    }
    proof {
        assert(bview(b@) =~~= blocked_of(map@));
    }
    b
}

/// A* route planning over the known map. Wall and Unknown cells are
/// impassable; all other cells cost one step. On success the result lists the
/// waypoints from the step after `start` through `goal` inclusive, and no
/// route between the same endpoints is shorter; `None` comes back exactly
/// when `goal` cannot be reached.
pub fn find_path(start: (usize, usize), goal: (usize, usize), map: &Vec<Vec<TypeCase>>) -> (r: Option<Vec<(usize, usize)>>)
    requires
        map@.len() >= 1,
        grid_wf(map@, map@[0]@.len() as int, map@.len() as int),
        map@[0]@.len() * map@.len() <= 0xffff,
        on_grid(start.0 as int, start.1 as int, map@[0]@.len() as int, map@.len() as int),
        on_grid(goal.0 as int, goal.1 as int, map@[0]@.len() as int, map@.len() as int),
    ensures
        match r {
            Some(p) => is_shortest_path(blocked_of(map@), start, goal, seq![start] + p@),
            None => !has_path(blocked_of(map@), start, goal),
        },
{
    let height = map.len();
    let width = map[0].len();
    let blocked = blocked_grid(map, width, height);
    proof {
        assert(height as int * width as int <= 0xffff) by (nonlinear_arith)
            requires
                width as int * height as int <= 0xffff,
        ;
    }
    match astar_search(&blocked, start, goal) {
        None => None,
        Some(mut p) => {
            let ghost full = p@;
            p.remove(0);
            proof {
                assert(seq![start] + p@ =~= full);
            }
            Some(p)
        },
    }
}

/// No walk beats the Manhattan distance: every walk from `start` to `goal`
/// takes at least that many steps, since one step changes the distance to
/// the goal by at most one.
pub proof fn lemma_path_lower_bound(b: Seq<Seq<bool>>, start: (usize, usize), goal: (usize, usize), p: Seq<(usize, usize)>)
    requires
        is_path(b, start, goal, p),
    ensures
        p.len() >= manhattan(start.0 as int, start.1 as int, goal.0 as int, goal.1 as int) + 1,
    decreases p.len(),
{
    if p.len() == 1 {
        assert(start == goal);
    } else {
        let rest = p.subrange(1, p.len() as int);
        assert(rest[rest.len() - 1] == p[p.len() - 1]);
        assert(forall|i: int| 0 <= i < rest.len() - 1 ==> adjacent(#[trigger] rest[i], rest[i + 1])) by {
            assert(forall|i: int| 0 <= i < rest.len() - 1 ==> #[trigger] rest[i] == p[i + 1] && rest[i + 1] == p[i + 2]);
        }
        assert(is_path(b, p[1], goal, rest));
        lemma_path_lower_bound(b, p[1], goal, rest);
        assert(adjacent(p[0], p[1]));
    }
}

/// An axis-aligned staircase from `s` to `g`: first along x, then along y,
/// one cell per entry.
pub open spec fn straight_path(s: (usize, usize), g: (usize, usize)) -> Seq<(usize, usize)>
    decreases manhattan(s.0 as int, s.1 as int, g.0 as int, g.1 as int),
{
    if s == g {
        seq![s]
    } else if s.0 < g.0 {
        seq![s] + straight_path(((s.0 + 1) as usize, s.1), g)
    } else if s.0 > g.0 {
        seq![s] + straight_path(((s.0 - 1) as usize, s.1), g)
    } else if s.1 < g.1 {
        seq![s] + straight_path((s.0, (s.1 + 1) as usize), g)
    } else {
        seq![s] + straight_path((s.0, (s.1 - 1) as usize), g)
    }
}

/// On a grid with no blocked cell, the staircase is a walk from `s` to `g`
/// of exactly the Manhattan distance of steps.
pub proof fn lemma_straight_path_ok(b: Seq<Seq<bool>>, s: (usize, usize), g: (usize, usize), width: int, height: int)
    requires
        bgrid_wf(b, width, height),
        forall|x: int, y: int| on_grid(x, y, width, height) ==> !b[y][x],
        on_grid(s.0 as int, s.1 as int, width, height),
        on_grid(g.0 as int, g.1 as int, width, height),
    ensures
        is_path(b, s, g, straight_path(s, g)),
        straight_path(s, g).len() == manhattan(s.0 as int, s.1 as int, g.0 as int, g.1 as int) + 1,
    decreases manhattan(s.0 as int, s.1 as int, g.0 as int, g.1 as int),
{
    reveal_with_fuel(straight_path, 2);
    if s == g {
    } else {
        let s2: (usize, usize) = if s.0 < g.0 {
            ((s.0 + 1) as usize, s.1)
        } else if s.0 > g.0 {
            ((s.0 - 1) as usize, s.1)
        } else if s.1 < g.1 {
            (s.0, (s.1 + 1) as usize)
        } else {
            (s.0, (s.1 - 1) as usize)
        };
        assert(on_grid(s2.0 as int, s2.1 as int, width, height));
        lemma_straight_path_ok(b, s2, g, width, height);
        let rest = straight_path(s2, g);
        let p = straight_path(s, g);
        assert(p == seq![s] + rest);
        assert(p[0] == s);
        assert(p[p.len() - 1] == rest[rest.len() - 1]);
        assert(adjacent(s, s2));
        assert(forall|i: int| 1 <= i < p.len() ==> p[i] == rest[i - 1]);
        assert(forall|i: int| 0 <= i < p.len() - 1 ==> adjacent(#[trigger] p[i], p[i + 1])) by {
            assert(forall|i: int| 1 <= i < p.len() - 1 ==> adjacent(#[trigger] rest[i - 1], rest[i]));
        }
        assert(!b[s2.1 as int][s2.0 as int]);
    }
}

/// On an obstacle-free known map, route planning cannot fail, and every
/// shortest route between two cells has exactly their Manhattan distance of
/// steps beyond its first cell.
pub proof fn lemma_open_grid_path_length(b: Seq<Seq<bool>>, s: (usize, usize), g: (usize, usize), width: int, height: int)
    requires
        bgrid_wf(b, width, height),
        forall|x: int, y: int| on_grid(x, y, width, height) ==> !b[y][x],
        on_grid(s.0 as int, s.1 as int, width, height),
        on_grid(g.0 as int, g.1 as int, width, height),
    ensures
        has_path(b, s, g),
        forall|p: Seq<(usize, usize)>| is_shortest_path(b, s, g, p)
            ==> #[trigger] p.len() == manhattan(s.0 as int, s.1 as int, g.0 as int, g.1 as int) + 1,
{
    lemma_straight_path_ok(b, s, g, width, height);
    let stair = straight_path(s, g);
    assert(has_path(b, s, g)) by {
        assert(is_path(b, s, g, stair));
    }
    assert forall|p: Seq<(usize, usize)>| is_shortest_path(b, s, g, p)
        implies #[trigger] p.len() == manhattan(s.0 as int, s.1 as int, g.0 as int, g.1 as int) + 1 by {
        lemma_path_lower_bound(b, s, g, p);
        assert(p.len() <= stair.len());
    }
}

/// On a known map with no impassable cell, a route between any two cells
/// exists, and every shortest route has exactly their Manhattan distance of
/// steps: what `find_path` returns on an obstacle-free map.
pub proof fn lemma_open_map_route_length(m: Seq<Vec<TypeCase>>, s: (usize, usize), g: (usize, usize))
    requires
        m.len() >= 1,
        grid_wf(m, m[0]@.len() as int, m.len() as int),
        forall|x: int, y: int|
            on_grid(x, y, m[0]@.len() as int, m.len() as int)
                ==> !blocks_path(#[trigger] cell_at(m, x, y)),
        on_grid(s.0 as int, s.1 as int, m[0]@.len() as int, m.len() as int),
        on_grid(g.0 as int, g.1 as int, m[0]@.len() as int, m.len() as int),
    ensures
        has_path(blocked_of(m), s, g),
        forall|p: Seq<(usize, usize)>|
            is_shortest_path(blocked_of(m), s, g, p) ==> #[trigger] p.len() == manhattan(
                s.0 as int,
                s.1 as int,
                g.0 as int,
                g.1 as int,
            ) + 1,
{
    let w = m[0]@.len() as int;
    let h = m.len() as int;
    let b = blocked_of(m);
    assert forall|x: int, y: int| on_grid(x, y, w, h) implies !b[y][x] by {
        assert(b[y][x] == blocks_path(cell_at(m, x, y)));
    }
    lemma_open_grid_path_length(b, s, g, w, h);
}

/// A goal cell whose on-grid neighbours are all impassable in the known map
/// cannot be reached from any start two or more steps away: what makes
/// `find_path` return nothing for a walled-in goal.
pub proof fn lemma_walled_goal_unreachable(m: Seq<Vec<TypeCase>>, s: (usize, usize), g: (usize, usize))
    requires
        m.len() >= 1,
        grid_wf(m, m[0]@.len() as int, m.len() as int),
        on_grid(s.0 as int, s.1 as int, m[0]@.len() as int, m.len() as int),
        on_grid(g.0 as int, g.1 as int, m[0]@.len() as int, m.len() as int),
        manhattan(s.0 as int, s.1 as int, g.0 as int, g.1 as int) >= 2,
        forall|c: (usize, usize)|
            on_grid(c.0 as int, c.1 as int, m[0]@.len() as int, m.len() as int) && adjacent(c, g)
                ==> blocks_path(#[trigger] cell_at(m, c.0 as int, c.1 as int)),
    ensures
        !has_path(blocked_of(m), s, g),
{
    let w = m[0]@.len() as int;
    let h = m.len() as int;
    let b = blocked_of(m);
    assert forall|c: (usize, usize)|
        on_grid(c.0 as int, c.1 as int, w, h) && adjacent(c, g) implies b[c.1 as int][c.0 as int] by {
        assert(b[c.1 as int][c.0 as int] == blocks_path(cell_at(m, c.0 as int, c.1 as int)));
    }
    lemma_enclosed_goal_unreachable(b, s, g, w, h);
}

/// A goal whose on-grid neighbours are all blocked cannot be reached from a
/// start at Manhattan distance two or more: the last step of any walk would
/// have to cross one of those neighbours.
pub proof fn lemma_enclosed_goal_unreachable(b: Seq<Seq<bool>>, s: (usize, usize), g: (usize, usize), width: int, height: int)
    requires
        bgrid_wf(b, width, height),
        on_grid(s.0 as int, s.1 as int, width, height),
        on_grid(g.0 as int, g.1 as int, width, height),
        manhattan(s.0 as int, s.1 as int, g.0 as int, g.1 as int) >= 2,
        forall|c: (usize, usize)|
            on_grid(c.0 as int, c.1 as int, width, height) && adjacent(c, g) ==> b[c.1 as int][c.0 as int],
    ensures
        !has_path(b, s, g),
{
    if has_path(b, s, g) {
        let p = choose|p: Seq<(usize, usize)>| is_path(b, s, g, p);
        assert(p[0] == s && p[p.len() - 1] == g);
        assert(p.len() >= 2);
        if p.len() == 2 {
            assert(adjacent(p[0], p[1]));
        } else {
            let q = p[p.len() - 2];
            assert(adjacent(q, p[p.len() - 1]));
            assert(q.1 < b.len() && q.0 < b[q.1 as int].len() && !b[q.1 as int][q.0 as int]);
            assert(on_grid(q.0 as int, q.1 as int, width, height));
        }
    }
}

} // verus!

