use vstd::prelude::*;
use crate::cell::{is_resource, is_resource_cell, TypeCase};
use crate::config::RobotsConfig;
use crate::grid::{cell_at, grid_set, grid_wf, manhattan, on_grid};
use crate::robot::{
    collector_count, explorer_count, lemma_count_full, lemma_count_prefix_step, Collector,
    Explorer, RobotUnit,
};

verus! {

/// The single coordinating owner of all shared simulation state: both maps,
/// the resource ledger, the reservation set and the agent roster. Every
/// mutation of shared state goes through one of its methods, so each command
/// is atomic by construction.
pub struct Base {
    pub width: usize,
    pub height: usize,
    pub position_x: usize,
    pub position_y: usize,
    pub real_map: Vec<Vec<TypeCase>>,
    pub known_map: Vec<Vec<TypeCase>>,
    pub deployed_robots: Vec<RobotUnit>,
    pub energy: usize,
    pub ore: usize,
    pub science: usize,
    pub config: RobotsConfig,
    pub reserved_resources: Vec<(usize, usize)>,
    pub covered: Ghost<Set<(usize, usize)>>,
}

/// The larger of two integers.
pub open spec fn max2(a: int, b: int) -> int {
    if a >= b {
        a
    } else {
        b
    }
}

/// No cell of `m` is `Unknown`: ground truth is always determined.
pub open spec fn no_unknown(m: Seq<Vec<TypeCase>>, width: int, height: int) -> bool {
    forall|x: int, y: int|
        on_grid(x, y, width, height) ==> #[trigger] cell_at(m, x, y) != TypeCase::Unknown
}

/// A cell still `Unknown` has never been covered by a vision footprint.
pub open spec fn fog_sound(
    m: Seq<Vec<TypeCase>>,
    width: int,
    height: int,
    covered: Set<(usize, usize)>,
) -> bool {
    forall|x: int, y: int|
        on_grid(x, y, width, height) && #[trigger] cell_at(m, x, y) == TypeCase::Unknown
            ==> !covered.contains((x as usize, y as usize))
}

/// The reservation list holds each coordinate at most once, and only
/// coordinates of the grid.
pub open spec fn reserved_ok(r: Seq<(usize, usize)>, width: int, height: int) -> bool {
    &&& r.no_duplicates()
    &&& forall|i: int|
        0 <= i < r.len() ==> on_grid((#[trigger] r[i]).0 as int, r[i].1 as int, width, height)
}

/// A roster entry that stands on the grid, along with every waypoint of a
/// collector's pending route.
pub open spec fn unit_ok(u: RobotUnit, width: int, height: int) -> bool {
    &&& (u.spec_x() as int) < width
    &&& (u.spec_y() as int) < height
    &&& match u {
        RobotUnit::Collector(col) => forall|i: int|
            0 <= i < col.path@.len()
                ==> on_grid((#[trigger] col.path@[i]).0 as int, col.path@[i].1 as int, width, height),
        RobotUnit::Explorer(_) => true,
    }
}

/// Every roster entry is well-placed.
pub open spec fn roster_ok(rs: Seq<RobotUnit>, width: int, height: int) -> bool {
    forall|j: int| 0 <= j < rs.len() ==> unit_ok(#[trigger] rs[j], width, height)
}

/// Every reserved coordinate is claimed by some collector of the roster.
pub open spec fn tracked_ok(r: Seq<(usize, usize)>, rs: Seq<RobotUnit>) -> bool {
    forall|c: (usize, usize)|
        #[trigger] r.to_set().contains(c) ==> exists|j: int|
            0 <= j < rs.len() && (#[trigger] rs[j]).pursues(c)
}

impl Base {
    /// Whether `(x, y)` lies on this base's grids.
    pub open spec fn in_map(self, x: int, y: int) -> bool {
        on_grid(x, y, self.width as int, self.height as int)
    }

    /// Ground truth at `(x, y)`.
    pub open spec fn real_at(self, x: int, y: int) -> TypeCase {
        cell_at(self.real_map@, x, y)
    }

    /// This base's fog-of-war view at `(x, y)`.
    pub open spec fn known_at(self, x: int, y: int) -> TypeCase {
        cell_at(self.known_map@, x, y)
    }

    /// The reserved coordinates, in the order their claims were handed out.
    pub open spec fn reserved_list(self) -> Seq<(usize, usize)> {
        self.reserved_resources@
    }

    /// The set of coordinates currently claimed as some collector's target.
    pub open spec fn reservations(self) -> Set<(usize, usize)> {
        self.reserved_list().to_set()
    }

    /// Every cell that some agent's vision footprint has ever covered.
    pub open spec fn covered_cells(self) -> Set<(usize, usize)> {
        self.covered@
    }

    /// Well-formedness: positive dimensions small enough for the route
    /// engine, both grids rectangular, the base and all agents on the grid,
    /// no `Unknown` ground truth, distinct in-bounds reservations, and no
    /// known-map cell left `Unknown` once a vision footprint covered it.
    pub open spec fn wf(self) -> bool {
        &&& 0 < self.width && 0 < self.height
        &&& self.width * self.height <= 0xffff
        &&& self.position_x < self.width && self.position_y < self.height
        &&& grid_wf(self.real_map@, self.width as int, self.height as int)
        &&& grid_wf(self.known_map@, self.width as int, self.height as int)
        &&& no_unknown(self.real_map@, self.width as int, self.height as int)
        &&& reserved_ok(self.reserved_resources@, self.width as int, self.height as int)
        &&& roster_ok(self.deployed_robots@, self.width as int, self.height as int)
        &&& fog_sound(self.known_map@, self.width as int, self.height as int, self.covered@)
    }

    /// Every reserved coordinate is some collector's current pickup target.
    /// This holds between agent ticks: the arbitration query reserves first
    /// and its caller stores the claim within the same tick.
    pub open spec fn reservations_tracked(self) -> bool {
        tracked_ok(self.reserved_resources@, self.deployed_robots@)
    }

    /// The highest of the three ledger counters.
    pub open spec fn scarcity_max(self) -> int {
        max2(max2(self.energy as int, self.ore as int), self.science as int)
    }

    /// Scarcity priority of a resource kind: the gap between the fullest
    /// counter and this kind's counter, so the most depleted kind wins.
    pub open spec fn priority_of_kind(self, c: TypeCase) -> int {
        if c == TypeCase::Energy {
            self.scarcity_max() - self.energy as int
        } else if c == TypeCase::Ore {
            self.scarcity_max() - self.ore as int
        } else {
            self.scarcity_max() - self.science as int
        }
    }

    /// Distance from the base to `(x, y)`.
    pub open spec fn dist_to_base(self, x: int, y: int) -> int {
        manhattan(self.position_x as int, self.position_y as int, x, y)
    }

    /// An unreserved resource cell of the known map: what the arbitration
    /// query may hand out.
    pub open spec fn is_candidate(self, c: (usize, usize)) -> bool {
        &&& self.in_map(c.0 as int, c.1 as int)
        &&& is_resource(self.known_at(c.0 as int, c.1 as int))
        &&& !self.reservations().contains(c)
    }

    /// Candidate `a` wins against candidate `b`: strictly higher scarcity
    /// priority, or equal priority and no larger distance to the base.
    pub open spec fn beats(self, a: (usize, usize), b: (usize, usize)) -> bool {
        let pa = self.priority_of_kind(self.known_at(a.0 as int, a.1 as int));
        let pb = self.priority_of_kind(self.known_at(b.0 as int, b.1 as int));
        ||| pa > pb
        ||| (pa == pb && self.dist_to_base(a.0 as int, a.1 as int) <= self.dist_to_base(
            b.0 as int,
            b.1 as int,
        ))
    }

    /// The collector:explorer ratio is below the fixed 2:1 target. With no
    /// explorer at all the ratio counts as zero, hence below target.
    pub open spec fn ratio_below_target(self) -> bool {
        ||| explorer_count(self.deployed_robots@) == 0
        ||| collector_count(self.deployed_robots@) < 2 * explorer_count(self.deployed_robots@)
    }

    /// The ledger covers a collector's spawn cost.
    pub open spec fn can_afford_collector(self) -> bool {
        &&& self.science >= self.config.collector.cost_science
        &&& self.ore >= self.config.collector.cost_ore
        &&& self.energy >= self.config.collector.cost_energy
    }

    /// The ledger covers an explorer's spawn cost.
    pub open spec fn can_afford_explorer(self) -> bool {
        &&& self.science >= self.config.explorer.cost_science
        &&& self.ore >= self.config.explorer.cost_ore
        &&& self.energy >= self.config.explorer.cost_energy
    }

    /// The spawn-control decision, evaluated in order: a collector whenever
    /// the ratio is below target, one collector already exists and the cost
    /// is covered; else an explorer whenever the ratio is at or above target
    /// or no explorer exists yet, and the cost is covered; else nothing.
    pub open spec fn spawn_decision(self) -> Option<TypeCase> {
        if self.ratio_below_target() && collector_count(self.deployed_robots@) > 0
            && self.can_afford_collector() {
            Some(TypeCase::Collector)
        } else if (!self.ratio_below_target() || explorer_count(self.deployed_robots@) == 0)
            && self.can_afford_explorer() {
            Some(TypeCase::Explorer)
        } else {
            None
        }
    }

    /// The world configuration this base was built with, unchanged by a
    /// command: dimensions, base position and static costs.
    pub open spec fn same_shape(self, other: Base) -> bool {
        &&& self.width == other.width
        &&& self.height == other.height
        &&& self.position_x == other.position_x
        &&& self.position_y == other.position_y
        &&& self.config == other.config
    }

    /// Builds the coordinator over a generated world, seeded with one
    /// explorer and one collector standing at the base.
    pub fn new(
        width: usize,
        height: usize,
        position_x: usize,
        position_y: usize,
        real_map: Vec<Vec<TypeCase>>,
        known_map: Vec<Vec<TypeCase>>,
        config: RobotsConfig,
    ) -> (b: Base)
        requires
            0 < width && 0 < height,
            width * height <= 0xffff,
            position_x < width && position_y < height,
            grid_wf(real_map@, width as int, height as int),
            grid_wf(known_map@, width as int, height as int),
            no_unknown(real_map@, width as int, height as int),
        ensures
            b.wf(),
            b.width == width && b.height == height,
            b.position_x == position_x && b.position_y == position_y,
            b.real_map@ == real_map@,
            b.known_map@ == known_map@,
            b.config == config,
            b.energy == 0 && b.ore == 0 && b.science == 0,
            b.reservations() == Set::<(usize, usize)>::empty(),
            b.reservations_tracked(),
            b.deployed_robots@.len() == 2,
            b.deployed_robots@[0] == RobotUnit::Explorer(
                Explorer { position_x: position_x, position_y: position_y },
            ),
            b.deployed_robots@[1] is Collector,
            b.deployed_robots@[1]->Collector_0.idle(),
            b.deployed_robots@[1].spec_x() == position_x,
            b.deployed_robots@[1].spec_y() == position_y,
    {
        let mut deployed_robots: Vec<RobotUnit> = Vec::new();
        deployed_robots.push(RobotUnit::Explorer(Explorer::new(position_x, position_y)));
        deployed_robots.push(RobotUnit::Collector(Collector::new(position_x, position_y)));
        let b = Base {
            width,
            height,
            position_x,
            position_y,
            real_map,
            known_map,
            deployed_robots,
            energy: 0,
            ore: 0,
            science: 0,
            config,
            reserved_resources: Vec::new(),
            covered: Ghost(
                Set::new(
                    |c: (usize, usize)|
                        on_grid(c.0 as int, c.1 as int, width as int, height as int)
                            && cell_at(known_map@, c.0 as int, c.1 as int) != TypeCase::Unknown,
                ),
            ),
        };
        proof {
            assert(b.reserved_list().to_set() =~= Set::<(usize, usize)>::empty());
        }
        b
    }

    /// Appends an agent to the roster.
    pub fn add_robot(&mut self, robot: RobotUnit)
        requires
            old(self).wf(),
            unit_ok(robot, old(self).width as int, old(self).height as int),
        ensures
            final(self).wf(),
            final(self).deployed_robots@ == old(self).deployed_robots@.push(robot),
            final(self).same_shape(*old(self)),
            final(self).real_map@ == old(self).real_map@,
            final(self).known_map@ == old(self).known_map@,
            final(self).energy == old(self).energy && final(self).ore == old(self).ore
                && final(self).science == old(self).science,
            final(self).reserved_resources@ == old(self).reserved_resources@,
            final(self).covered_cells() == old(self).covered_cells(),
            old(self).reservations_tracked() ==> final(self).reservations_tracked(),
    {
        self.deployed_robots.push(robot);
        proof {
            let rs0 = old(self).deployed_robots@;
            let rs1 = self.deployed_robots@;
            assert forall|j: int| 0 <= j < rs1.len() implies unit_ok(
                #[trigger] rs1[j],
                self.width as int,
                self.height as int,
            ) by {
                if j < rs0.len() {
                    assert(unit_ok(rs0[j], self.width as int, self.height as int));
                }
            }
            if old(self).reservations_tracked() {
                assert forall|c: (usize, usize)|
                    #[trigger] self.reserved_resources@.to_set().contains(c) implies exists|j: int|
                    0 <= j < rs1.len() && (#[trigger] rs1[j]).pursues(c) by {
                    let j = choose|j: int| 0 <= j < rs0.len() && (#[trigger] rs0[j]).pursues(c);
                    assert(rs1[j].pursues(c));
                }
            }
        }
    }

    /// Records an observation: an agent reports what its vision footprint
    /// covers, and the cell is written into the known map. Out-of-bounds
    /// coordinates are ignored. An observation is something an agent saw, so
    /// it is never `Unknown`.
    pub fn update_map(&mut self, x: usize, y: usize, case: TypeCase)
        requires
            old(self).wf(),
            case != TypeCase::Unknown,
        ensures
            final(self).wf(),
            final(self).same_shape(*old(self)),
            final(self).real_map@ == old(self).real_map@,
            final(self).deployed_robots@ == old(self).deployed_robots@,
            final(self).energy == old(self).energy && final(self).ore == old(self).ore
                && final(self).science == old(self).science,
            final(self).reserved_resources@ == old(self).reserved_resources@,
            old(self).reservations_tracked() ==> final(self).reservations_tracked(),
            old(self).in_map(x as int, y as int) ==> {
                &&& cell_at(final(self).known_map@, x as int, y as int) == case
                &&& forall|a: int, b: int|
                    on_grid(a, b, old(self).width as int, old(self).height as int) && (a != x || b
                        != y) ==> #[trigger] cell_at(final(self).known_map@, a, b) == cell_at(
                        old(self).known_map@,
                        a,
                        b,
                    )
                &&& final(self).covered_cells() == old(self).covered_cells().insert((x, y))
            },
            !old(self).in_map(x as int, y as int) ==> *final(self) == *old(self),
    {
        if x < self.width && y < self.height {
            grid_set(&mut self.known_map, x, y, self.width, self.height, case);
            proof {
                self.covered@ = self.covered@.insert((x, y));
                assert forall|a: int, b: int|
                    on_grid(a, b, self.width as int, self.height as int) && #[trigger] cell_at(
                        self.known_map@,
                        a,
                        b,
                    ) == TypeCase::Unknown implies !self.covered@.contains(
                    (a as usize, b as usize),
                ) by {
                    assert(cell_at(old(self).known_map@, a, b) == cell_at(self.known_map@, a, b));
                }
            }
        }
    }

    /// Manhattan distance between two grid coordinates.
    pub fn manhattan_distance(x1: usize, y1: usize, x2: usize, y2: usize) -> (d: usize)
        requires
            manhattan(x1 as int, y1 as int, x2 as int, y2 as int) <= usize::MAX,
        ensures
            d == manhattan(x1 as int, y1 as int, x2 as int, y2 as int),
    {
        let dx = if x1 >= x2 {
            x1 - x2
        } else {
            x2 - x1
        };
        let dy = if y1 >= y2 {
            y1 - y2
        } else {
            y2 - y1
        };
        dx + dy
    }

    /// Whether `(x, y)` is currently reserved.
    fn reserved_contains(&self, x: usize, y: usize) -> (r: bool)
        ensures
            r == self.reservations().contains((x, y)),
    {
        let n = self.reserved_resources.len();
        let mut i: usize = 0;
        while i < n
            invariant
                i <= n,
                n == self.reserved_resources@.len(),
                forall|j: int| 0 <= j < i ==> self.reserved_resources@[j] != (x, y),
            decreases n - i,
        {
            let c = self.reserved_resources[i];
            if c.0 == x && c.1 == y {
                proof {
                    assert(self.reserved_list().contains((x, y)));
                }
                return true;
            }
            i += 1;
        }
        proof {
            if self.reserved_list().contains((x, y)) {
                let j = choose|j: int|
                    0 <= j < self.reserved_list().len() && self.reserved_list()[j] == (x, y);
                assert(false);
            }
        }
        false
    }

    /// Drops the claim on `(x, y)`. Releasing an unreserved coordinate
    /// changes nothing at all.
    pub fn release_resource(&mut self, x: usize, y: usize)
        requires
            old(self).wf(),
        ensures
            final(self).wf(),
            final(self).same_shape(*old(self)),
            final(self).real_map@ == old(self).real_map@,
            final(self).known_map@ == old(self).known_map@,
            final(self).deployed_robots@ == old(self).deployed_robots@,
            final(self).energy == old(self).energy && final(self).ore == old(self).ore
                && final(self).science == old(self).science,
            final(self).covered_cells() == old(self).covered_cells(),
            final(self).reservations() == old(self).reservations().remove((x, y)),
            !old(self).reservations().contains((x, y)) ==> *final(self) == *old(self),
            old(self).reservations_tracked() ==> final(self).reservations_tracked(),
    {
        let n = self.reserved_resources.len();
        let mut i: usize = 0;
        while i < n
            invariant
                *self == *old(self),
                old(self).wf(),
                i <= n,
                n == self.reserved_resources@.len(),
                forall|j: int| 0 <= j < i ==> self.reserved_resources@[j] != (x, y),
            decreases n - i,
        {
            let c = self.reserved_resources[i];
            if c.0 == x && c.1 == y {
                proof {
                    lemma_swap_remove_to_set(self.reserved_resources@, i as int);
                }
                self.reserved_resources.swap_remove(i);
                proof {
                    if old(self).reservations_tracked() {
                        assert forall|cc: (usize, usize)|
                            #[trigger] self.reserved_resources@.to_set().contains(
                                cc,
                            ) implies exists|j: int|
                            0 <= j < self.deployed_robots@.len()
                                && (#[trigger] self.deployed_robots@[j]).pursues(cc) by {
                            assert(old(self).reserved_resources@.to_set().contains(cc));
                            let j = choose|j: int|
                                0 <= j < old(self).deployed_robots@.len() && (#[trigger] old(
                                    self,
                                ).deployed_robots@[j]).pursues(cc);
                            assert(self.deployed_robots@[j].pursues(cc));
                        }
                    }
                    assert forall|k: int|
                        0 <= k < self.reserved_resources@.len() implies on_grid(
                        (#[trigger] self.reserved_resources@[k]).0 as int,
                        self.reserved_resources@[k].1 as int,
                        self.width as int,
                        self.height as int,
                    ) by {
                        assert(old(self).reserved_resources@.to_set().contains(
                            self.reserved_resources@[k],
                        ));
                        let m = choose|m: int|
                            0 <= m < old(self).reserved_resources@.len() && old(
                                self,
                            ).reserved_resources@[m] == self.reserved_resources@[k];
                        assert(reserved_ok(
                            old(self).reserved_resources@,
                            self.width as int,
                            self.height as int,
                        ));
                    }
                }
                return ;
            }
            i += 1;
        }
        proof {
            if self.reserved_list().contains((x, y)) {
                let j = choose|j: int|
                    0 <= j < self.reserved_list().len() && self.reserved_list()[j] == (x, y);
                assert(false);
            }
            assert(self.reservations() =~= old(self).reservations().remove((x, y)));
        }
    }

    /// The arbitration query: picks the best unreserved resource cell of the
    /// known map, preferring the most depleted resource kind and, among equal
    /// priority, the smallest Manhattan distance to the base; reserves the
    /// chosen coordinate in the same atomic step. Returns nothing exactly
    /// when no unreserved resource cell is currently known, and then changes
    /// nothing at all.
    pub fn next_resource(&mut self) -> (r: Option<(usize, usize)>)
        requires
            old(self).wf(),
        ensures
            final(self).wf(),
            final(self).same_shape(*old(self)),
            final(self).real_map@ == old(self).real_map@,
            final(self).known_map@ == old(self).known_map@,
            final(self).deployed_robots@ == old(self).deployed_robots@,
            final(self).energy == old(self).energy && final(self).ore == old(self).ore
                && final(self).science == old(self).science,
            final(self).covered_cells() == old(self).covered_cells(),
            (r is Some) <==> exists|c: (usize, usize)| old(self).is_candidate(c),
            match r {
                Some(c) => {
                    &&& old(self).is_candidate(c)
                    &&& forall|d: (usize, usize)|
                        old(self).is_candidate(d) ==> old(self).beats(c, d)
                    &&& final(self).reservations() == old(self).reservations().insert(c)
                },
                None => *final(self) == *old(self),
            },
    {
        let width = self.width;
        let height = self.height;
        let max_c = {
            let m = if self.energy >= self.ore {
                self.energy
            } else {
                self.ore
            };
            if m >= self.science {
                m
            } else {
                self.science
            }
        };
        let mut best: Option<(usize, usize)> = None;
        let mut best_p: usize = 0;
        let mut best_d: usize = 0;
        let mut y: usize = 0;
        while y < height
            invariant
                *self == *old(self),
                old(self).wf(),
                width == self.width && height == self.height,
                max_c as int == self.scarcity_max(),
                y <= height,
                match best {
                    Some(bc) => {
                        &&& self.is_candidate(bc)
                        &&& best_p as int == self.priority_of_kind(
                            self.known_at(bc.0 as int, bc.1 as int),
                        )
                        &&& best_d as int == self.dist_to_base(bc.0 as int, bc.1 as int)
                        &&& forall|d: (usize, usize)|
                            self.is_candidate(d) && (d.1 as int) < y ==> self.beats(bc, d)
                    },
                    None => forall|d: (usize, usize)|
                        self.is_candidate(d) ==> (d.1 as int) >= y,
                },
            decreases height - y,
        {
            let mut x: usize = 0;
            while x < width
                invariant
                    *self == *old(self),
                    old(self).wf(),
                    width == self.width && height == self.height,
                    max_c as int == self.scarcity_max(),
                    y < height,
                    x <= width,
                    match best {
                        Some(bc) => {
                            &&& self.is_candidate(bc)
                            &&& best_p as int == self.priority_of_kind(
                                self.known_at(bc.0 as int, bc.1 as int),
                            )
                            &&& best_d as int == self.dist_to_base(bc.0 as int, bc.1 as int)
                            &&& forall|d: (usize, usize)|
                                self.is_candidate(d) && ((d.1 as int) < y || ((d.1 as int) == y && (
                                d.0 as int) < x)) ==> self.beats(bc, d)
                        },
                        None => forall|d: (usize, usize)|
                            self.is_candidate(d) ==> ((d.1 as int) > y || ((d.1 as int) == y && (
                            d.0 as int) >= x)),
                    },
                decreases width - x,
            {
                let case = self.known_map[y][x];
                if is_resource_cell(case) && !self.reserved_contains(x, y) {
                    let counter = match case {
                        TypeCase::Energy => self.energy,
                        TypeCase::Ore => self.ore,
                        _ => self.science,
                    };
                    let prio = max_c - counter;
                    proof {
                        assert(self.is_candidate((x, y)));
                        assert(prio as int == self.priority_of_kind(
                            self.known_at(x as int, y as int),
                        ));
                        assert(self.width as int <= 0xffff && self.height as int <= 0xffff)
                            by (nonlinear_arith)
                            requires
                                self.width as int * self.height as int <= 0xffff,
                                0 < self.width,
                                0 < self.height,
                        ;
                    }
                    let dist = Self::manhattan_distance(self.position_x, self.position_y, x, y);
                    let is_better = match best {
                        None => true,
                        Some(_) => prio > best_p || (prio == best_p && dist < best_d),
                    };
                    if is_better {
                        proof {
                            if best is Some {
                                let bc = best->0;
                                assert(self.beats((x, y), bc));
                                assert forall|d: (usize, usize)|
                                    self.is_candidate(d) && ((d.1 as int) < y || ((d.1 as int) == y
                                        && (d.0 as int) < x)) implies self.beats((x, y), d) by {
                                    assert(self.beats(bc, d));
                                }
                            }
                        }
                        best = Some((x, y));
                        best_p = prio;
                        best_d = dist;
                    }
                }
                x += 1;
            }
            y += 1;
        }
        match best {
            None => {
                proof {
                    if exists|c: (usize, usize)| old(self).is_candidate(c) {
                        let c = choose|c: (usize, usize)| old(self).is_candidate(c);
                        assert(false);
                    }
                }
                None
            },
            Some(bc) => {
                proof {
                    lemma_push_new(self.reserved_resources@, bc);
                }
                self.reserved_resources.push(bc);
                Some(bc)
            },
        }
    }

    /// One pass of the spawn-control loop: reads the roster counts and the
    /// ledger, and either manufactures one agent and debits its full cost in
    /// the same atomic step, or does nothing at all. The kind made follows
    /// `spawn_decision`.
    pub fn try_spawn(&mut self) -> (r: Option<TypeCase>)
        requires
            old(self).wf(),
        ensures
            final(self).wf(),
            final(self).same_shape(*old(self)),
            final(self).real_map@ == old(self).real_map@,
            final(self).known_map@ == old(self).known_map@,
            final(self).reserved_resources@ == old(self).reserved_resources@,
            final(self).covered_cells() == old(self).covered_cells(),
            old(self).reservations_tracked() ==> final(self).reservations_tracked(),
            r == old(self).spawn_decision(),
            match r {
                Some(k) => {
                    &&& final(self).deployed_robots@.len() == old(self).deployed_robots@.len() + 1
                    &&& final(self).deployed_robots@.drop_last() == old(self).deployed_robots@
                    &&& final(self).deployed_robots@.last().spec_kind() == k
                    &&& final(self).deployed_robots@.last().spec_x() == old(self).position_x
                    &&& final(self).deployed_robots@.last().spec_y() == old(self).position_y
                    &&& (k == TypeCase::Collector ==> {
                        &&& final(self).deployed_robots@.last()->Collector_0.idle()
                        &&& final(self).science == old(self).science
                            - old(self).config.collector.cost_science
                        &&& final(self).ore == old(self).ore - old(self).config.collector.cost_ore
                        &&& final(self).energy == old(self).energy
                            - old(self).config.collector.cost_energy
                    })
                    &&& (k == TypeCase::Explorer ==> {
                        &&& final(self).science == old(self).science
                            - old(self).config.explorer.cost_science
                        &&& final(self).ore == old(self).ore - old(self).config.explorer.cost_ore
                        &&& final(self).energy == old(self).energy
                            - old(self).config.explorer.cost_energy
                    })
                },
                None => *final(self) == *old(self),
            },
    {
        let n = self.deployed_robots.len();
        let mut explorers: usize = 0;
        let mut collectors: usize = 0;
        let mut i: usize = 0;
        while i < n
            invariant
                *self == *old(self),
                old(self).wf(),
                i <= n,
                n == self.deployed_robots@.len(),
                explorers as int == explorer_count(self.deployed_robots@.subrange(0, i as int)),
                collectors as int == collector_count(self.deployed_robots@.subrange(0, i as int)),
                explorers <= i,
                collectors <= i,
            decreases n - i,
        {
            proof {
                lemma_count_prefix_step(self.deployed_robots@, i as int);
            }
            match &self.deployed_robots[i] {
                RobotUnit::Explorer(_) => {
                    explorers = explorers + 1;
                },
                RobotUnit::Collector(_) => {
                    collectors = collectors + 1;
                },
            }
            i += 1;
        }
        proof {
            lemma_count_full(self.deployed_robots@);
        }
        let below_target = explorers == 0 || (collectors as u128) < 2 * (explorers as u128);
        let cc = self.config.collector;
        let ec = self.config.explorer;
        let afford_collector = self.science >= cc.cost_science && self.ore >= cc.cost_ore
            && self.energy >= cc.cost_energy;
        let afford_explorer = self.science >= ec.cost_science && self.ore >= ec.cost_ore
            && self.energy >= ec.cost_energy;
        if below_target && collectors > 0 && afford_collector {
            self.science = self.science - cc.cost_science;
            self.ore = self.ore - cc.cost_ore;
            self.energy = self.energy - cc.cost_energy;
            self.add_robot(RobotUnit::Collector(Collector::new(self.position_x, self.position_y)));
            Some(TypeCase::Collector)
        } else if (!below_target || explorers == 0) && afford_explorer {
            self.science = self.science - ec.cost_science;
            self.ore = self.ore - ec.cost_ore;
            self.energy = self.energy - ec.cost_energy;
            self.add_robot(RobotUnit::Explorer(Explorer::new(self.position_x, self.position_y)));
            Some(TypeCase::Explorer)
        } else {
            None
        }
    }

    /// Deposits one unit of a carried resource kind into the ledger. Any
    /// other cell kind leaves the ledger alone.
    pub fn add_resource(&mut self, resource: TypeCase)
        requires
            old(self).wf(),
            resource == TypeCase::Energy ==> old(self).energy < usize::MAX,
            resource == TypeCase::Ore ==> old(self).ore < usize::MAX,
            resource == TypeCase::Science ==> old(self).science < usize::MAX,
        ensures
            final(self).wf(),
            final(self).same_shape(*old(self)),
            final(self).real_map@ == old(self).real_map@,
            final(self).known_map@ == old(self).known_map@,
            final(self).deployed_robots@ == old(self).deployed_robots@,
            final(self).reserved_resources@ == old(self).reserved_resources@,
            final(self).covered_cells() == old(self).covered_cells(),
            old(self).reservations_tracked() ==> final(self).reservations_tracked(),
            final(self).energy == old(self).energy + if resource == TypeCase::Energy {
                1int
            } else {
                0int
            },
            final(self).ore == old(self).ore + if resource == TypeCase::Ore {
                1int
            } else {
                0int
            },
            final(self).science == old(self).science + if resource == TypeCase::Science {
                1int
            } else {
                0int
            },
    {
        match resource {
            TypeCase::Energy => {
                self.energy = self.energy + 1;
            },
            TypeCase::Ore => {
                self.ore = self.ore + 1;
            },
            TypeCase::Science => {
                self.science = self.science + 1;
            },
            _ => {},
        }
    }
}

/// Every ledger counter is a machine natural, so none is ever negative; the
/// only debits, in `try_spawn`, are each guarded by a sufficiency test.
pub proof fn lemma_ledger_never_negative(b: Base)
    ensures
        b.energy as int >= 0,
        b.ore as int >= 0,
        b.science as int >= 0,
{
}

/// Each coordinate stands in the reservation set at most once: the claim
/// list of a well-formed coordinator holds no coordinate twice.
pub proof fn lemma_reservation_at_most_once(b: Base)
    requires
        b.wf(),
    ensures
        forall|i: int, j: int|
            0 <= i < b.reserved_list().len() && 0 <= j < b.reserved_list().len() && i != j
                ==> b.reserved_list()[i] != b.reserved_list()[j],
{
}

/// A claimed coordinate is always some collector's pickup target, in every
/// state where the tracking invariant holds: `Base::new` establishes it and
/// every coordinator command and agent tick preserves it.
pub proof fn lemma_reservation_pursued(b: Base, c: (usize, usize))
    requires
        b.reservations_tracked(),
        b.reservations().contains(c),
    ensures
        exists|j: int|
            0 <= j < b.deployed_robots@.len() && (#[trigger] b.deployed_robots@[j]).pursues(c),
{
}

/// A known-map cell still `Unknown` has never been covered by any vision
/// footprint: the fog of war is sound in every well-formed state.
pub proof fn lemma_unknown_never_covered(b: Base, x: int, y: int)
    requires
        b.wf(),
        b.in_map(x, y),
        b.known_at(x, y) == TypeCase::Unknown,
    ensures
        !b.covered_cells().contains((x as usize, y as usize)),
{
}

/// Claiming a coordinate that is not yet in the list adds exactly it to the
/// claimed set and keeps the list free of duplicates.
proof fn lemma_push_new(s: Seq<(usize, usize)>, c: (usize, usize))
    requires
        s.no_duplicates(),
        !s.to_set().contains(c),
    ensures
        s.push(c).no_duplicates(),
        s.push(c).to_set() == s.to_set().insert(c),
{
    assert forall|a: (usize, usize)| s.push(c).contains(a) implies s.to_set().insert(c).contains(
        a,
    ) by {
        let k = choose|k: int| 0 <= k < s.push(c).len() && s.push(c)[k] == a;
        if k < s.len() {
            assert(s[k] == a);
        }
    }
    assert forall|a: (usize, usize)| s.to_set().insert(c).contains(a) implies s.push(c).contains(
        a,
    ) by {
        if a == c {
            assert(s.push(c)[s.len() as int] == a);
        } else {
            let k = choose|k: int| 0 <= k < s.len() && s[k] == a;
            assert(s.push(c)[k] == a);
        }
    }
    assert(s.push(c).to_set() =~= s.to_set().insert(c));
    assert forall|i: int, j: int|
        0 <= i < s.push(c).len() && 0 <= j < s.push(c).len() && i != j implies s.push(c)[i]
        != s.push(c)[j] by {
        if j == s.len() && i < s.len() {
            assert(s.contains(s[i]));
        }
        if i == s.len() && j < s.len() {
            assert(s.contains(s[j]));
        }
    }
}

/// Removing the claim at index `i` by a swap with the last entry removes
/// exactly that coordinate from the claimed set and keeps the rest distinct.
proof fn lemma_swap_remove_to_set(s: Seq<(usize, usize)>, i: int)
    requires
        0 <= i < s.len(),
        s.no_duplicates(),
    ensures
        s.update(i, s.last()).drop_last().to_set() == s.to_set().remove(s[i]),
        s.update(i, s.last()).drop_last().no_duplicates(),
        s.update(i, s.last()).drop_last().len() == s.len() - 1,
{
    let t = s.update(i, s.last()).drop_last();
    assert forall|a: (usize, usize)| t.contains(a) implies s.to_set().remove(s[i]).contains(
        a,
    ) by {
        let k = choose|k: int| 0 <= k < t.len() && t[k] == a;
        if k == i {
            assert(s[s.len() - 1] == a);
        } else {
            assert(s[k] == a);
        }
    }
    assert forall|a: (usize, usize)| s.to_set().remove(s[i]).contains(a) implies t.contains(
        a,
    ) by {
        let k = choose|k: int| 0 <= k < s.len() && s[k] == a;
        if k == s.len() - 1 {
            assert(i < s.len() - 1);
            assert(t[i] == a);
        } else {
            assert(t[k] == a);
        }
    }
    assert(t.to_set() =~= s.to_set().remove(s[i]));
}

} // verus!
