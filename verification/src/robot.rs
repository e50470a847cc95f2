use vstd::prelude::*;
use crate::base::{unit_ok, Base};
use crate::cell::{blocks_path, blocks_path_cell, is_resource, is_resource_cell, TypeCase};
use crate::grid::{cell_at, grid_set, manhattan, on_grid};
use crate::pathfinding::{blocked_of, find_path, has_path, is_path, is_shortest_path};

verus! {

/// What every deployed agent reports to the coordinator and the renderer.
pub trait Robot {
    /// The roster kind of this agent.
    fn get_type(&self) -> TypeCase;

    /// Current column.
    fn get_position_x(&self) -> usize;

    /// Current row.
    fn get_position_y(&self) -> usize;
}

/// A wandering agent that reveals the terrain it can see.
#[derive(Clone, Copy, Debug, PartialEq, Eq, Structural)]
pub struct Explorer {
    pub position_x: usize,
    pub position_y: usize,
}

impl Explorer {
    /// A fresh explorer standing at `(x, y)`.
    pub fn new(x: usize, y: usize) -> (r: Explorer)
        ensures
            r.position_x == x && r.position_y == y,
    {
        Explorer { position_x: x, position_y: y }
    }
}

impl Robot for Explorer {
    fn get_type(&self) -> TypeCase {
        TypeCase::Explorer
    }

    fn get_position_x(&self) -> usize {
        self.position_x
    }

    fn get_position_y(&self) -> usize {
        self.position_y
    }
}

/// A fetching agent: it asks the coordinator for a target, walks there,
/// picks the resource up, walks back and deposits it.
#[derive(Clone, Debug)]
pub struct Collector {
    pub position_x: usize,
    pub position_y: usize,
    pub at_base: bool,
    pub path: Vec<(usize, usize)>,
    pub collected_resource: Option<TypeCase>,
    pub destination: Option<(usize, usize)>,
}

impl Collector {
    /// A fresh collector standing at `(x, y)` with no plan and empty hands.
    pub fn new(x: usize, y: usize) -> (r: Collector)
        ensures
            r.position_x == x && r.position_y == y,
            r.at_base,
            r.path@ == Seq::<(usize, usize)>::empty(),
            r.collected_resource is None,
            r.destination is None,
    {
        Collector {
            position_x: x,
            position_y: y,
            at_base: true,
            path: Vec::new(),
            collected_resource: None,
            destination: None,
        }
    }

    /// Whether this collector is carrying a resource.
    pub open spec fn carrying(self) -> bool {
        self.collected_resource is Some
    }

    /// Whether this collector holds `c` as its reserved pickup target.
    pub open spec fn pursues(self, c: (usize, usize)) -> bool {
        self.destination == Some(c)
    }

    /// Idle at no particular plan: nothing carried, no route, no claim.
    pub open spec fn idle(self) -> bool {
        &&& !self.carrying()
        &&& self.path@.len() == 0
        &&& self.destination is None
    }
}

impl Robot for Collector {
    fn get_type(&self) -> TypeCase {
        TypeCase::Collector
    }

    fn get_position_x(&self) -> usize {
        self.position_x
    }

    fn get_position_y(&self) -> usize {
        self.position_y
    }
}

/// One roster entry: the tagged per-kind payload of a deployed agent.
#[derive(Clone, Debug)]
pub enum RobotUnit {
    Explorer(Explorer),
    Collector(Collector),
}

impl RobotUnit {
    /// The roster kind of this entry.
    pub open spec fn spec_kind(self) -> TypeCase {
        match self {
            RobotUnit::Explorer(_) => TypeCase::Explorer,
            RobotUnit::Collector(_) => TypeCase::Collector,
        }
    }

    /// Column of the agent.
    pub open spec fn spec_x(self) -> usize {
        match self {
            RobotUnit::Explorer(e) => e.position_x,
            RobotUnit::Collector(c) => c.position_x,
        }
    }

    /// Row of the agent.
    pub open spec fn spec_y(self) -> usize {
        match self {
            RobotUnit::Explorer(e) => e.position_y,
            RobotUnit::Collector(c) => c.position_y,
        }
    }

    /// Whether this entry is a collector claiming `c` as its pickup target.
    pub open spec fn pursues(self, c: (usize, usize)) -> bool {
        match self {
            RobotUnit::Explorer(_) => false,
            RobotUnit::Collector(col) => col.pursues(c),
        }
    }

    /// The roster kind, executably.
    pub fn kind(&self) -> (k: TypeCase)
        ensures
            k == self.spec_kind(),
    {
        match self {
            RobotUnit::Explorer(_) => TypeCase::Explorer,
            RobotUnit::Collector(_) => TypeCase::Collector,
        }
    }

    /// The position, executably.
    pub fn position(&self) -> (p: (usize, usize))
        ensures
            p == (self.spec_x(), self.spec_y()),
    {
        match self {
            RobotUnit::Explorer(e) => (e.position_x, e.position_y),
            RobotUnit::Collector(c) => (c.position_x, c.position_y),
        }
    }
}

/// How many entries of `s` are explorers.
pub open spec fn explorer_count(s: Seq<RobotUnit>) -> int
    decreases s.len(),
{
    if s.len() == 0 {
        0
    } else {
        explorer_count(s.drop_last()) + if s.last() is Explorer {
            1int
        } else {
            0int
        }
    }
}

/// How many entries of `s` are collectors.
pub open spec fn collector_count(s: Seq<RobotUnit>) -> int
    decreases s.len(),
{
    if s.len() == 0 {
        0
    } else {
        collector_count(s.drop_last()) + if s.last() is Collector {
            1int
        } else {
            0int
        }
    }
}

/// Entry `i` of the roster, viewed as a collector.
pub open spec fn col_at(b: Base, i: int) -> Collector {
    b.deployed_robots@[i]->Collector_0
}

/// The roster is unchanged except at `i`, which is still a collector.
pub open spec fn roster_step(pre: Base, post: Base, i: int) -> bool {
    &&& post.deployed_robots@.len() == pre.deployed_robots@.len()
    &&& forall|j: int|
        0 <= j < pre.deployed_robots@.len() && j != i ==> post.deployed_robots@[j]
            == #[trigger] pre.deployed_robots@[j]
    &&& post.deployed_robots@[i] is Collector
}

/// Both grids untouched.
pub open spec fn maps_same(pre: Base, post: Base) -> bool {
    &&& post.real_map@ == pre.real_map@
    &&& post.known_map@ == pre.known_map@
}

/// All three ledger counters untouched.
pub open spec fn ledger_same(pre: Base, post: Base) -> bool {
    &&& post.energy == pre.energy
    &&& post.ore == pre.ore
    &&& post.science == pre.science
}

/// The claimed set untouched.
pub open spec fn reservations_same(pre: Base, post: Base) -> bool {
    post.reservations() == pre.reservations()
}

/// A stored route: from `from`, one waypoint per entry, ending at `to`, over
/// the blocked cells of `b`'s known map, with no shorter route possible.
pub open spec fn planned_route(b: Base, from: (usize, usize), to: (usize, usize), p: Seq<(usize, usize)>) -> bool {
    is_shortest_path(blocked_of(b.known_map@), from, to, seq![from] + p)
}

/// What one collector tick does, as a relation between the coordinator
/// state before (`pre`) and after (`post`), for the collector at roster
/// index `i`. The branches mirror the task state machine: follow the stored
/// route (discarding it if its next waypoint became impassable), deposit or
/// head home while carrying, collect or give up at a claimed target, and
/// otherwise ask the coordinator for new work.
pub open spec fn collector_tick_rel(pre: Base, post: Base, i: int) -> bool {
    let c0 = col_at(pre, i);
    let c1 = col_at(post, i);
    let pos0 = (c0.position_x, c0.position_y);
    let home = (pre.position_x, pre.position_y);
    &&& roster_step(pre, post, i)
    &&& post.same_shape(pre)
    &&& post.covered@ == pre.covered@
    &&& c1.at_base == (pos0 == home)
    &&& if c0.path@.len() > 0 {
        let next = c0.path@[0];
        if blocks_path(cell_at(pre.known_map@, next.0 as int, next.1 as int)) {
            // the route crosses a cell that became impassable: discard it,
            // and abandon the claim unless already carrying
            &&& maps_same(pre, post)
            &&& ledger_same(pre, post)
            &&& c1.position_x == c0.position_x && c1.position_y == c0.position_y
            &&& c1.collected_resource == c0.collected_resource
            &&& c1.path@.len() == 0
            &&& if !c0.carrying() && c0.destination is Some {
                &&& post.reservations() == pre.reservations().remove(c0.destination->0)
                &&& c1.destination is None
            } else {
                &&& reservations_same(pre, post)
                &&& c1.destination == c0.destination
            }
        } else {
            // consume one waypoint
            &&& maps_same(pre, post)
            &&& ledger_same(pre, post)
            &&& reservations_same(pre, post)
            &&& c1.position_x == next.0 && c1.position_y == next.1
            &&& c1.path@ == c0.path@.subrange(1, c0.path@.len() as int)
            &&& c1.collected_resource == c0.collected_resource
            &&& c1.destination == c0.destination
        }
    } else if c0.carrying() {
        if pos0 == home {
            // deposit the carried resource
            &&& maps_same(pre, post)
            &&& reservations_same(pre, post)
            &&& post.energy == pre.energy + if c0.collected_resource == Some(TypeCase::Energy) {
                1int
            } else {
                0int
            }
            &&& post.ore == pre.ore + if c0.collected_resource == Some(TypeCase::Ore) {
                1int
            } else {
                0int
            }
            &&& post.science == pre.science + if c0.collected_resource == Some(
                TypeCase::Science,
            ) {
                1int
            } else {
                0int
            }
            &&& c1.collected_resource is None
            &&& c1.position_x == c0.position_x && c1.position_y == c0.position_y
            &&& c1.path@.len() == 0
            &&& c1.destination == c0.destination
        } else {
            // plan the way home
            &&& maps_same(pre, post)
            &&& ledger_same(pre, post)
            &&& reservations_same(pre, post)
            &&& c1.collected_resource == c0.collected_resource
            &&& c1.position_x == c0.position_x && c1.position_y == c0.position_y
            &&& c1.destination == c0.destination
            &&& (c1.path@.len() > 0 ==> planned_route(post, pos0, home, c1.path@))
            &&& (c1.path@.len() > 0 <==> has_path(blocked_of(pre.known_map@), pos0, home))
        }
    } else if c0.destination is Some {
        let d = c0.destination->0;
        if pos0 == d {
            if is_resource(cell_at(pre.real_map@, d.0 as int, d.1 as int)) {
                // pick the resource up: both maps lose the cell, the claim
                // is released, and the way home is planned
                &&& cell_at(post.real_map@, d.0 as int, d.1 as int) == TypeCase::Void
                &&& cell_at(post.known_map@, d.0 as int, d.1 as int) == TypeCase::Void
                &&& forall|a: int, b: int|
                    on_grid(a, b, pre.width as int, pre.height as int) && (a != d.0 || b != d.1)
                        ==> #[trigger] cell_at(post.real_map@, a, b) == cell_at(pre.real_map@, a, b)
                &&& forall|a: int, b: int|
                    on_grid(a, b, pre.width as int, pre.height as int) && (a != d.0 || b != d.1)
                        ==> #[trigger] cell_at(post.known_map@, a, b) == cell_at(
                            pre.known_map@,
                            a,
                            b,
                        )
                &&& post.reservations() == pre.reservations().remove(d)
                &&& ledger_same(pre, post)
                &&& c1.collected_resource == Some(
                    cell_at(pre.real_map@, d.0 as int, d.1 as int),
                )
                &&& c1.destination is None
                &&& c1.position_x == c0.position_x && c1.position_y == c0.position_y
                &&& (c1.path@.len() > 0 ==> planned_route(post, pos0, home, c1.path@))
                &&& (pos0 != home && has_path(blocked_of(post.known_map@), pos0, home)
                    ==> c1.path@.len() > 0)
            } else {
                // someone got here first: give the claim up, empty-handed
                &&& maps_same(pre, post)
                &&& ledger_same(pre, post)
                &&& post.reservations() == pre.reservations().remove(d)
                &&& c1.collected_resource is None
                &&& c1.destination is None
                &&& c1.position_x == c0.position_x && c1.position_y == c0.position_y
                &&& c1.path@.len() == 0
            }
        } else {
            // a claim without a route and away from the target: abandon it
            &&& maps_same(pre, post)
            &&& ledger_same(pre, post)
            &&& post.reservations() == pre.reservations().remove(d)
            &&& c1.collected_resource is None
            &&& c1.destination is None
            &&& c1.position_x == c0.position_x && c1.position_y == c0.position_y
            &&& c1.path@.len() == 0
        }
    } else {
        // idle: ask the coordinator for the next target
        if forall|d: (usize, usize)| !pre.is_candidate(d) {
            // no unreserved resource is known: stay idle
            &&& maps_same(pre, post)
            &&& ledger_same(pre, post)
            &&& reservations_same(pre, post)
            &&& c1.collected_resource is None
            &&& c1.destination is None
            &&& c1.path@.len() == 0
            &&& c1.position_x == c0.position_x && c1.position_y == c0.position_y
        } else {
            &&& maps_same(pre, post)
            &&& ledger_same(pre, post)
            &&& c1.collected_resource is None
            &&& c1.position_x == c0.position_x && c1.position_y == c0.position_y
            &&& match c1.destination {
                Some(tgt) => {
                    // a reachable best candidate: the claim is kept and the
                    // route stored
                    &&& pre.is_candidate(tgt)
                    &&& forall|d: (usize, usize)| pre.is_candidate(d) ==> pre.beats(tgt, d)
                    &&& has_path(blocked_of(pre.known_map@), pos0, tgt)
                    &&& post.reservations() == pre.reservations().insert(tgt)
                    &&& planned_route(post, pos0, tgt, c1.path@)
                },
                None => {
                    // the best candidate handed out was unreachable, and its
                    // claim was released at once
                    &&& reservations_same(pre, post)
                    &&& c1.path@.len() == 0
                    &&& exists|tgt: (usize, usize)|
                        {
                            &&& #[trigger] pre.is_candidate(tgt)
                            &&& forall|d: (usize, usize)| pre.is_candidate(d) ==> pre.beats(tgt, d)
                            &&& !has_path(blocked_of(pre.known_map@), pos0, tgt)
                        }
                },
            }
        }
    }
}

/// A cell an explorer may step onto: on the grid and no wall in the ground
/// truth.
pub open spec fn viable_step(b: Base, x: int, y: int) -> bool {
    on_grid(x, y, b.width as int, b.height as int) && cell_at(b.real_map@, x, y) != TypeCase::Wall
}

/// Some cardinal neighbour of `(x, y)` admits a step.
pub open spec fn has_viable_neighbor(b: Base, x: int, y: int) -> bool {
    ||| viable_step(b, x, y - 1)
    ||| viable_step(b, x, y + 1)
    ||| viable_step(b, x - 1, y)
    ||| viable_step(b, x + 1, y)
}

/// The cell one step in direction `d` from `(x, y)`: up, down, left, right.
pub open spec fn dir_target(x: int, y: int, d: u8) -> (int, int) {
    if d == 0 {
        (x, y - 1)
    } else if d == 1 {
        (x, y + 1)
    } else if d == 2 {
        (x - 1, y)
    } else {
        (x + 1, y)
    }
}

/// What one explorer tick does, for the explorer at roster index `i`: a
/// weighted random step onto a viable neighbour (standing still only when
/// every neighbour is out of bounds or a wall), then a reveal of every cell
/// within the vision radius of the new position.
pub open spec fn explorer_tick_rel(pre: Base, post: Base, i: int) -> bool {
    let e0 = pre.deployed_robots@[i]->Explorer_0;
    let e1 = post.deployed_robots@[i]->Explorer_0;
    let r = pre.config.explorer.vision_range as int;
    let w = pre.width as int;
    let h = pre.height as int;
    &&& post.deployed_robots@.len() == pre.deployed_robots@.len()
    &&& forall|j: int|
        0 <= j < pre.deployed_robots@.len() && j != i ==> post.deployed_robots@[j]
            == #[trigger] pre.deployed_robots@[j]
    &&& post.deployed_robots@[i] is Explorer
    &&& post.same_shape(pre)
    &&& post.real_map@ == pre.real_map@
    &&& post.reserved_resources@ == pre.reserved_resources@
    &&& ledger_same(pre, post)
    &&& if has_viable_neighbor(pre, e0.position_x as int, e0.position_y as int) {
        &&& viable_step(pre, e1.position_x as int, e1.position_y as int)
        &&& manhattan(
            e0.position_x as int,
            e0.position_y as int,
            e1.position_x as int,
            e1.position_y as int,
        ) == 1
    } else {
        e1 == e0
    }
    &&& forall|a: int, b: int|
        on_grid(a, b, w, h) && manhattan(a, b, e1.position_x as int, e1.position_y as int) <= r
            ==> #[trigger] cell_at(post.known_map@, a, b) == cell_at(pre.real_map@, a, b)
                && post.covered@.contains((a as usize, b as usize))
    &&& forall|a: int, b: int|
        on_grid(a, b, w, h) && manhattan(a, b, e1.position_x as int, e1.position_y as int) > r
            ==> #[trigger] cell_at(post.known_map@, a, b) == cell_at(pre.known_map@, a, b)
    &&& forall|c: (usize, usize)|
        pre.covered@.contains(c) ==> #[trigger] post.covered@.contains(c)
}

/// Mid-tick accounting while the collector is lifted out of the roster:
/// every claim in the current reservation list is either the lifted
/// collector's own, or held by another collector that was already in the
/// roster before the tick.
spec fn tracked_handoff(pre: Base, cur: Base, col: Collector, i: int) -> bool {
    forall|cc: (usize, usize)|
        #[trigger] cur.reserved_resources@.to_set().contains(cc) ==> col.pursues(cc) || exists|j: int|
            0 <= j < pre.deployed_robots@.len() && j != i && (#[trigger] pre.deployed_robots@[j]).pursues(
                cc,
            )
}

/// Every waypoint of a planned route lies on the grid.
proof fn lemma_route_on_grid(b: Seq<Seq<bool>>, s: (usize, usize), g: (usize, usize), p: Seq<(usize, usize)>, width: int, height: int)
    requires
        is_shortest_path(b, s, g, seq![s] + p),
        b.len() == height,
        forall|y: int| 0 <= y < height ==> (#[trigger] b[y]).len() == width,
    ensures
        forall|k: int| 0 <= k < p.len() ==> on_grid((#[trigger] p[k]).0 as int, p[k].1 as int, width, height),
{
    let full = seq![s] + p;
    assert forall|k: int| 0 <= k < p.len() implies on_grid(
        (#[trigger] p[k]).0 as int,
        p[k].1 as int,
        width,
        height,
    ) by {
        assert(full[k + 1] == p[k]);
        assert(full[k + 1].1 < b.len() && full[k + 1].0 < b[full[k + 1].1 as int].len());
    }
}

/// Relies on rand::random_range: a draw from the thread-local generator,
/// uniform over `0..n`. It panics on an empty range, and nothing beyond the
/// bound holds of any single draw.
#[verifier::external_body]
fn random_below(n: usize) -> (r: usize)
    requires
        n > 0,
    ensures
        r < n,
{
    rand::random_range(0..n)
}

/// From the pre-tick tracking invariant to the mid-tick accounting: sound
/// whenever the tick only kept or shrank the claimed set, and the lifted
/// collector kept any claim of its own that is still in the set.
proof fn lemma_handoff(pre: Base, cur: Base, col: Collector, i: int)
    requires
        pre.reservations_tracked(),
        0 <= i < pre.deployed_robots@.len(),
        forall|cc: (usize, usize)|
            #[trigger] cur.reserved_resources@.to_set().contains(cc)
                ==> pre.reserved_resources@.to_set().contains(cc),
        forall|cc: (usize, usize)|
            cur.reserved_resources@.to_set().contains(cc) && #[trigger] col_at(pre, i).pursues(cc)
                ==> col.pursues(cc),
    ensures
        tracked_handoff(pre, cur, col, i),
{
    assert forall|cc: (usize, usize)|
        #[trigger] cur.reserved_resources@.to_set().contains(cc) implies col.pursues(cc) || exists|
        j: int,
    |
        0 <= j < pre.deployed_robots@.len() && j != i && (#[trigger] pre.deployed_robots@[j]).pursues(
            cc,
        ) by {
        assert(pre.reserved_resources@.to_set().contains(cc));
        let j = choose|j: int|
            0 <= j < pre.deployed_robots@.len() && (#[trigger] pre.deployed_robots@[j]).pursues(cc);
        if j == i {
            assert(col_at(pre, i).pursues(cc));
        }
    }
}

/// Writing the lifted collector back into its slot turns the mid-tick
/// accounting into the tracking invariant again.
proof fn lemma_tracked_restore(pre: Base, post: Base, col: Collector, i: int)
    requires
        tracked_handoff(pre, post, col, i),
        post.deployed_robots@.len() == pre.deployed_robots@.len(),
        0 <= i < pre.deployed_robots@.len(),
        post.deployed_robots@[i] == RobotUnit::Collector(col),
        forall|j: int|
            0 <= j < pre.deployed_robots@.len() && j != i ==> post.deployed_robots@[j]
                == #[trigger] pre.deployed_robots@[j],
    ensures
        post.reservations_tracked(),
{
    assert forall|cc: (usize, usize)|
        #[trigger] post.reserved_resources@.to_set().contains(cc) implies exists|j: int|
        0 <= j < post.deployed_robots@.len() && (#[trigger] post.deployed_robots@[j]).pursues(
            cc,
        ) by {
        if exists|j: int|
            0 <= j < pre.deployed_robots@.len() && j != i && (#[trigger] pre.deployed_robots@[j]).pursues(
                cc,
            ) {
            let j = choose|j: int|
                0 <= j < pre.deployed_robots@.len() && j != i && (#[trigger] pre.deployed_robots@[j]).pursues(
                    cc,
                );
            assert(post.deployed_robots@[j].pursues(cc));
        } else {
            assert(col.pursues(cc));
            assert(post.deployed_robots@[i as int].pursues(cc));
        }
    }
}

impl Base {
    /// One tick of the collector at roster index `i`: one transition of its
    /// task state machine, exactly as `collector_tick_rel` states it.
    #[verifier::rlimit(60)]
    pub fn tick_collector(&mut self, i: usize)
        requires
            old(self).wf(),
            old(self).reservations_tracked(),
            i < old(self).deployed_robots@.len(),
            old(self).deployed_robots@[i as int] is Collector,
            col_at(*old(self), i as int).collected_resource == Some(TypeCase::Energy) ==> old(
                self,
            ).energy < usize::MAX,
            col_at(*old(self), i as int).collected_resource == Some(TypeCase::Ore) ==> old(
                self,
            ).ore < usize::MAX,
            col_at(*old(self), i as int).collected_resource == Some(TypeCase::Science) ==> old(
                self,
            ).science < usize::MAX,
        ensures
            final(self).wf(),
            final(self).reservations_tracked(),
            collector_tick_rel(*old(self), *final(self), i as int),
    {
        let ghost pre = *old(self);
        let ghost c0 = col_at(pre, i as int);
        let ghost w = pre.width as int;
        let ghost h = pre.height as int;
        // lift the collector out of its slot, leaving a stand-in agent, so
        // that the coordinator commands below can borrow `self` freely; the
        // slot is written back at the end of the tick
        let mut unit = RobotUnit::Explorer(Explorer::new(0, 0));
        core::mem::swap(&mut unit, &mut self.deployed_robots[i]);
        let mut col = match unit {
            RobotUnit::Collector(c) => c,
            RobotUnit::Explorer(_) => vstd::pervasive::unreached(),
        };
        proof {
            assert(col == c0);
            assert(unit_ok(pre.deployed_robots@[i as int], w, h));
            assert forall|j: int| 0 <= j < self.deployed_robots@.len() implies unit_ok(
                #[trigger] self.deployed_robots@[j],
                w,
                h,
            ) by {
                if j != i {
                    assert(unit_ok(pre.deployed_robots@[j], w, h));
                }
            }
            assert(self.wf());
        }
        let is_at_base = col.position_x == self.position_x && col.position_y == self.position_y;
        col.at_base = is_at_base;
        if col.path.len() > 0 {
            let next = col.path[0];
            proof {
                assert(on_grid(next.0 as int, next.1 as int, w, h));
            }
            let case = self.known_map[next.1][next.0];
            if blocks_path_cell(case) {
                col.path.clear();
                if col.collected_resource.is_none() {
                    match col.destination {
                        Some(d) => {
                            self.release_resource(d.0, d.1);
                            col.destination = None;
                        },
                        None => {},
                    }
                }
            } else {
                col.path.remove(0);
                col.position_x = next.0;
                col.position_y = next.1;
                proof {
                    assert(col.path@ =~= c0.path@.subrange(1, c0.path@.len() as int));
                    assert forall|k: int| 0 <= k < col.path@.len() implies on_grid(
                        (#[trigger] col.path@[k]).0 as int,
                        col.path@[k].1 as int,
                        w,
                        h,
                    ) by {
                        assert(col.path@[k] == c0.path@[k + 1]);
                    }
                }
            }
        } else if col.collected_resource.is_some() {
            if is_at_base {
                match col.collected_resource {
                    Some(kind) => {
                        self.add_resource(kind);
                    },
                    None => {},
                }
                col.collected_resource = None;
            } else {
                let route = find_path(
                    (col.position_x, col.position_y),
                    (self.position_x, self.position_y),
                    &self.known_map,
                );
                match route {
                    Some(p) => {
                        proof {
                            let b = blocked_of(self.known_map@);
                            let s = (col.position_x, col.position_y);
                            let g = (self.position_x, self.position_y);
                            lemma_route_nonempty(b, s, g, p@);
                            assert(is_path(b, s, g, seq![s] + p@));
                            lemma_route_on_grid(b, s, g, p@, w, h);
                        }
                        col.path = p;
                    },
                    None => {},
                }
            }
        } else {
            let dest = col.destination;
            match dest {
                Some(d) => {
                    if col.position_x == d.0 && col.position_y == d.1 {
                        proof {
                            assert(on_grid(d.0 as int, d.1 as int, w, h));
                        }
                        let cell = self.real_map[d.1][d.0];
                        if is_resource_cell(cell) {
                            let width = self.width;
                            let height = self.height;
                            grid_set(&mut self.real_map, d.0, d.1, width, height, TypeCase::Void);
                            grid_set(&mut self.known_map, d.0, d.1, width, height, TypeCase::Void);
                            col.collected_resource = Some(cell);
                            proof {
                                assert forall|a: int, b: int| on_grid(a, b, w, h) implies #[trigger]
                                cell_at(self.real_map@, a, b) != TypeCase::Unknown by {
                                    if a != d.0 || b != d.1 {
                                        assert(cell_at(pre.real_map@, a, b) != TypeCase::Unknown);
                                    }
                                }
                                assert forall|a: int, b: int|
                                    on_grid(a, b, w, h) && #[trigger] cell_at(self.known_map@, a, b)
                                        == TypeCase::Unknown implies !self.covered@.contains(
                                    (a as usize, b as usize),
                                ) by {
                                    if a != d.0 || b != d.1 {
                                        assert(cell_at(pre.known_map@, a, b) == cell_at(
                                            self.known_map@,
                                            a,
                                            b,
                                        ));
                                    }
                                }
                                assert(self.wf());
                            }
                            self.release_resource(d.0, d.1);
                            col.destination = None;
                            let route = find_path(
                                (col.position_x, col.position_y),
                                (self.position_x, self.position_y),
                                &self.known_map,
                            );
                            match route {
                                Some(p) => {
                                    proof {
                                        let b = blocked_of(self.known_map@);
                                        let s = (col.position_x, col.position_y);
                                        let g = (self.position_x, self.position_y);
                                        assert(is_path(b, s, g, seq![s] + p@));
                                        lemma_route_on_grid(b, s, g, p@, w, h);
                                    }
                                    col.path = p;
                                },
                                None => {},
                            }
                        } else {
                            self.release_resource(d.0, d.1);
                            col.destination = None;
                        }
                    } else {
                        self.release_resource(d.0, d.1);
                        col.destination = None;
                    }
                },
                None => {
                    let ghost mid0 = *self;
                    let target = self.next_resource();
                    match target {
                        Some(tgt) => {
                            proof {
                                assert(pre.is_candidate(tgt));
                                assert forall|d: (usize, usize)| pre.is_candidate(d) implies
                                    pre.beats(tgt, d) by {
                                    assert(mid0.is_candidate(d));
                                }
                            }
                            let route = find_path(
                                (col.position_x, col.position_y),
                                tgt,
                                &self.known_map,
                            );
                            match route {
                                Some(p) => {
                                    proof {
                                        let b = blocked_of(self.known_map@);
                                        let s = (col.position_x, col.position_y);
                                        assert(is_path(b, s, tgt, seq![s] + p@));
                                        lemma_route_on_grid(b, s, tgt, p@, w, h);
                                    }
                                    col.path = p;
                                    col.destination = Some(tgt);
                                },
                                None => {
                                    self.release_resource(tgt.0, tgt.1);
                                    proof {
                                        assert(!pre.reserved_resources@.to_set().contains(tgt));
                                        assert(self.reserved_resources@.to_set()
                                            =~= pre.reserved_resources@.to_set());
                                        assert(!has_path(
                                            blocked_of(pre.known_map@),
                                            (c0.position_x, c0.position_y),
                                            tgt,
                                        ));
                                    }
                                },
                            }
                        },
                        None => {
                            proof {
                                assert forall|d: (usize, usize)| !pre.is_candidate(d) by {
                                    if pre.is_candidate(d) {
                                        assert(mid0.is_candidate(d));
                                    }
                                }
                            }
                        },
                    }
                },
            }
        }
        proof {
            if !(col.destination is Some && self.reserved_resources@.to_set().contains(
                col.destination->0,
            ) && !pre.reserved_resources@.to_set().contains(col.destination->0)) {
                lemma_handoff(pre, *self, col, i as int);
            } else {
                assert forall|cc: (usize, usize)|
                    #[trigger] self.reserved_resources@.to_set().contains(cc) implies col.pursues(
                    cc,
                ) || exists|j: int|
                    0 <= j < pre.deployed_robots@.len() && j != i && (#[trigger] pre.deployed_robots@[j]).pursues(
                        cc,
                    ) by {
                    if cc != col.destination->0 {
                        assert(pre.reserved_resources@.to_set().contains(cc));
                        let j = choose|j: int|
                            0 <= j < pre.deployed_robots@.len() && (#[trigger] pre.deployed_robots@[j]).pursues(
                                cc,
                            );
                        assert(j != i);
                    }
                }
            }
        }
        self.deployed_robots[i] = RobotUnit::Collector(col);
        proof {
            assert(self.deployed_robots@ =~= pre.deployed_robots@.update(
                i as int,
                RobotUnit::Collector(col),
            ));
            lemma_tracked_restore(pre, *self, col, i as int);
            assert forall|j: int| 0 <= j < self.deployed_robots@.len() implies unit_ok(
                #[trigger] self.deployed_robots@[j],
                w,
                h,
            ) by {
                if j != i {
                    assert(unit_ok(pre.deployed_robots@[j], w, h));
                }
            }
            assert(self.wf());
        }
    }

    /// One tick of the explorer at roster index `i`: a weighted random step
    /// biased toward unexplored cells, then a reveal of the vision
    /// footprint, exactly as `explorer_tick_rel` states it.
    #[verifier::rlimit(100)]
    pub fn tick_explorer(&mut self, i: usize)
        requires
            old(self).wf(),
            i < old(self).deployed_robots@.len(),
            old(self).deployed_robots@[i as int] is Explorer,
        ensures
            final(self).wf(),
            old(self).reservations_tracked() ==> final(self).reservations_tracked(),
            explorer_tick_rel(*old(self), *final(self), i as int),
    {
        let ghost pre = *old(self);
        let ghost w = pre.width as int;
        let ghost h = pre.height as int;
        let ghost e0 = pre.deployed_robots@[i as int]->Explorer_0;
        let p = self.deployed_robots[i].position();
        let x = p.0;
        let y = p.1;
        proof {
            assert(unit_ok(pre.deployed_robots@[i as int], w, h));
            assert(self.width as int <= 0xffff && self.height as int <= 0xffff)
                by (nonlinear_arith)
                requires
                    self.width as int * self.height as int <= 0xffff,
                    0 < self.width,
                    0 < self.height,
            ;
        }
        // weigh each viable cardinal neighbour: three entries when it is
        // still unexplored, one otherwise
        let mut directions: Vec<u8> = Vec::new();
        if y > 0 {
            let c = self.real_map[y - 1][x];
            if !matches!(c, TypeCase::Wall) {
                directions.push(0);
                let kc = self.known_map[y - 1][x];
                if matches!(kc, TypeCase::Unknown) {
                    directions.push(0);
                    directions.push(0);
                }
            }
        }
        if y + 1 < self.height {
            let c = self.real_map[y + 1][x];
            if !matches!(c, TypeCase::Wall) {
                directions.push(1);
                let kc = self.known_map[y + 1][x];
                if matches!(kc, TypeCase::Unknown) {
                    directions.push(1);
                    directions.push(1);
                }
            }
        }
        if x > 0 {
            let c = self.real_map[y][x - 1];
            if !matches!(c, TypeCase::Wall) {
                directions.push(2);
                let kc = self.known_map[y][x - 1];
                if matches!(kc, TypeCase::Unknown) {
                    directions.push(2);
                    directions.push(2);
                }
            }
        }
        if x + 1 < self.width {
            let c = self.real_map[y][x + 1];
            if !matches!(c, TypeCase::Wall) {
                directions.push(3);
                let kc = self.known_map[y][x + 1];
                if matches!(kc, TypeCase::Unknown) {
                    directions.push(3);
                    directions.push(3);
                }
            }
        }
        proof {
            assert(forall|k: int|
                0 <= k < directions@.len() ==> viable_step(
                    pre,
                    dir_target(x as int, y as int, #[trigger] directions@[k]).0,
                    dir_target(x as int, y as int, directions@[k]).1,
                ));
            assert(has_viable_neighbor(pre, x as int, y as int) ==> directions@.len() > 0);
        }
        let moved: (usize, usize) = if directions.len() > 0 {
            let idx = random_below(directions.len());
            let d = directions[idx];
            proof {
                assert(viable_step(
                    pre,
                    dir_target(x as int, y as int, d).0,
                    dir_target(x as int, y as int, d).1,
                ));
            }
            if d == 0 {
                (x, y - 1)
            } else if d == 1 {
                (x, y + 1)
            } else if d == 2 {
                (x - 1, y)
            } else {
                (x + 1, y)
            }
        } else {
            (x, y)
        };
        let nx = moved.0;
        let ny = moved.1;
        self.deployed_robots[i] = RobotUnit::Explorer(Explorer::new(nx, ny));
        proof {
            assert(self.deployed_robots@ =~= pre.deployed_robots@.update(
                i as int,
                RobotUnit::Explorer(Explorer { position_x: nx, position_y: ny }),
            ));
            assert forall|j: int| 0 <= j < self.deployed_robots@.len() implies unit_ok(
                #[trigger] self.deployed_robots@[j],
                w,
                h,
            ) by {
                if j != i {
                    assert(unit_ok(pre.deployed_robots@[j], w, h));
                }
            }
            assert(self.wf());
        }
        // reveal the vision footprint of the new position
        let ghost mid = *self;
        let r = self.config.explorer.vision_range;
        let height = self.height;
        let width = self.width;
        let mut yy: usize = 0;
        while yy < height
            invariant
                self.wf(),
                yy <= height,
                width == self.width && height == self.height,
                w == self.width as int && h == self.height as int,
                self.width <= 0xffff && self.height <= 0xffff,
                r == self.config.explorer.vision_range,
                nx < width && ny < height,
                mid.width == self.width && mid.height == self.height,
                self.real_map@ == mid.real_map@,
                self.deployed_robots@ == mid.deployed_robots@,
                self.reserved_resources@ == mid.reserved_resources@,
                self.energy == mid.energy && self.ore == mid.ore && self.science == mid.science,
                self.position_x == mid.position_x && self.position_y == mid.position_y,
                self.config == mid.config,
                forall|a: int, b: int|
                    on_grid(a, b, w, h) && b < yy && manhattan(a, b, nx as int, ny as int)
                        <= r as int ==> #[trigger] cell_at(self.known_map@, a, b) == cell_at(
                        mid.real_map@,
                        a,
                        b,
                    ) && self.covered@.contains((a as usize, b as usize)),
                forall|a: int, b: int|
                    on_grid(a, b, w, h) && (b >= yy || manhattan(a, b, nx as int, ny as int)
                        > r as int) ==> #[trigger] cell_at(self.known_map@, a, b) == cell_at(
                        mid.known_map@,
                        a,
                        b,
                    ),
                forall|c: (usize, usize)|
                    mid.covered@.contains(c) ==> #[trigger] self.covered@.contains(c),
            decreases height - yy,
        {
            let mut xx: usize = 0;
            while xx < width
                invariant
                    self.wf(),
                    yy < height,
                    xx <= width,
                    width == self.width && height == self.height,
                    w == self.width as int && h == self.height as int,
                    self.width <= 0xffff && self.height <= 0xffff,
                    r == self.config.explorer.vision_range,
                    nx < width && ny < height,
                    mid.width == self.width && mid.height == self.height,
                    self.real_map@ == mid.real_map@,
                    self.deployed_robots@ == mid.deployed_robots@,
                    self.reserved_resources@ == mid.reserved_resources@,
                    self.energy == mid.energy && self.ore == mid.ore && self.science == mid.science,
                    self.position_x == mid.position_x && self.position_y == mid.position_y,
                    self.config == mid.config,
                    forall|a: int, b: int|
                        on_grid(a, b, w, h) && (b < yy || (b == yy && a < xx)) && manhattan(
                            a,
                            b,
                            nx as int,
                            ny as int,
                        ) <= r as int ==> #[trigger] cell_at(self.known_map@, a, b) == cell_at(
                            mid.real_map@,
                            a,
                            b,
                        ) && self.covered@.contains((a as usize, b as usize)),
                    forall|a: int, b: int|
                        on_grid(a, b, w, h) && ((b > yy || (b == yy && a >= xx)) || manhattan(
                            a,
                            b,
                            nx as int,
                            ny as int,
                        ) > r as int) ==> #[trigger] cell_at(self.known_map@, a, b) == cell_at(
                            mid.known_map@,
                            a,
                            b,
                        ),
                    forall|c: (usize, usize)|
                        mid.covered@.contains(c) ==> #[trigger] self.covered@.contains(c),
                decreases width - xx,
            {
                let dist = Self::manhattan_distance(xx, yy, nx, ny);
                if dist <= r {
                    let c = self.real_map[yy][xx];
                    proof {
                        assert(cell_at(self.real_map@, xx as int, yy as int)
                            != TypeCase::Unknown);
                    }
                    self.update_map(xx, yy, c);
                }
                xx += 1;
            }
            yy += 1;
        }
        proof {
            if pre.reservations_tracked() {
                assert forall|cc: (usize, usize)|
                    #[trigger] self.reserved_resources@.to_set().contains(cc) implies exists|
                    j: int,
                |
                    0 <= j < self.deployed_robots@.len()
                        && (#[trigger] self.deployed_robots@[j]).pursues(cc) by {
                    assert(pre.reserved_resources@.to_set().contains(cc));
                    let j = choose|j: int|
                        0 <= j < pre.deployed_robots@.len() && (#[trigger] pre.deployed_robots@[j]).pursues(
                            cc,
                        );
                    assert(j != i);
                    assert(self.deployed_robots@[j].pursues(cc));
                }
            }
        }
    }
}

/// A route between distinct endpoints has at least one waypoint beyond its
/// start.
proof fn lemma_route_nonempty(b: Seq<Seq<bool>>, s: (usize, usize), g: (usize, usize), p: Seq<(usize, usize)>)
    requires
        is_shortest_path(b, s, g, seq![s] + p),
        s != g,
    ensures
        p.len() > 0,
{
    let full = seq![s] + p;
    assert(full[0] == s);
    assert(full[full.len() - 1] == g);
}

/// Counting a prefix one longer adds exactly the entry at its end.
pub proof fn lemma_count_prefix_step(s: Seq<RobotUnit>, i: int)
    requires
        0 <= i < s.len(),
    ensures
        explorer_count(s.subrange(0, i + 1)) == explorer_count(s.subrange(0, i)) + if s[i] is Explorer {
            1int
        } else {
            0int
        },
        collector_count(s.subrange(0, i + 1)) == collector_count(s.subrange(0, i)) + if s[i] is Collector {
            1int
        } else {
            0int
        },
{
    assert(s.subrange(0, i + 1).drop_last() =~= s.subrange(0, i));
    assert(s.subrange(0, i + 1).last() == s[i]);
}

/// The full prefix of a roster is the roster itself.
pub proof fn lemma_count_full(s: Seq<RobotUnit>)
    ensures
        explorer_count(s.subrange(0, s.len() as int)) == explorer_count(s),
        collector_count(s.subrange(0, s.len() as int)) == collector_count(s),
{
    assert(s.subrange(0, s.len() as int) =~= s);
}

} // verus!
