use colony::base::Base;
use colony::cell::TypeCase;
use colony::config::{CollectorConfig, ExplorerConfig, RobotsConfig};
use colony::pathfinding::find_path;
use colony::robot::{Collector, RobotUnit};

fn test_config() -> RobotsConfig {
    RobotsConfig {
        explorer: ExplorerConfig {
            cost_science: 4,
            cost_ore: 3,
            cost_energy: 2,
            vision_range: 2,
            move_delay_ms: 10,
        },
        collector: CollectorConfig {
            cost_science: 1,
            cost_ore: 5,
            cost_energy: 4,
            move_delay_ms: 100,
        },
    }
}

fn open_map(width: usize, height: usize, fill: TypeCase) -> Vec<Vec<TypeCase>> {
    vec![vec![fill; width]; height]
}

fn new_base(
    width: usize,
    height: usize,
    bx: usize,
    by: usize,
    real: Vec<Vec<TypeCase>>,
    known: Vec<Vec<TypeCase>>,
) -> Base {
    Base::new(width, height, bx, by, real, known, test_config())
}

fn collector_of(b: &Base, i: usize) -> &Collector {
    match &b.deployed_robots[i] {
        RobotUnit::Collector(c) => c,
        RobotUnit::Explorer(_) => panic!("expected a collector at index {}", i),
    }
}

#[test]
fn path_on_open_map_has_manhattan_length() {
    let map = open_map(6, 5, TypeCase::Void);
    let p = find_path((0, 0), (3, 2), &map).expect("open map must have a route");
    assert_eq!(p.len(), 5);
    assert_eq!(*p.last().unwrap(), (3, 2));
    let mut prev = (0usize, 0usize);
    for w in &p {
        let dx = prev.0.abs_diff(w.0);
        let dy = prev.1.abs_diff(w.1);
        assert_eq!(dx + dy, 1, "waypoints must advance one cell at a time");
        prev = *w;
    }
}

#[test]
fn path_to_same_cell_is_empty() {
    let map = open_map(4, 4, TypeCase::Void);
    let p = find_path((2, 2), (2, 2), &map).expect("a cell can reach itself");
    assert!(p.is_empty());
}

#[test]
fn path_threads_the_only_gap() {
    // walls force the unique route down, across and back up
    let map = vec![
        vec![TypeCase::Void, TypeCase::Wall, TypeCase::Void],
        vec![TypeCase::Void, TypeCase::Wall, TypeCase::Void],
        vec![TypeCase::Void, TypeCase::Void, TypeCase::Void],
    ];
    let p = find_path((0, 0), (2, 0), &map).expect("the gap is open");
    assert_eq!(
        p,
        vec![(0, 1), (0, 2), (1, 2), (2, 2), (2, 1), (2, 0)]
    );
}

#[test]
fn path_around_unknown_territory() {
    // unexplored cells are impassable by plan, exactly like walls
    let map = vec![
        vec![TypeCase::Void, TypeCase::Unknown, TypeCase::Void],
        vec![TypeCase::Void, TypeCase::Void, TypeCase::Void],
    ];
    let p = find_path((0, 0), (2, 0), &map).expect("the detour is open");
    assert_eq!(p, vec![(0, 1), (1, 1), (2, 1), (2, 0)]);
}

#[test]
fn walled_in_goal_has_no_path() {
    let mut map = open_map(5, 5, TypeCase::Void);
    map[2][3] = TypeCase::Wall;
    map[4][3] = TypeCase::Wall;
    map[3][2] = TypeCase::Wall;
    map[3][4] = TypeCase::Wall;
    assert_eq!(find_path((0, 0), (3, 3), &map), None);
}

#[test]
fn collector_fetches_deposits_and_depletes_the_cell() {
    let mut real = open_map(3, 1, TypeCase::Void);
    real[0][2] = TypeCase::Ore;
    let known = real.clone();
    let mut b = new_base(3, 1, 0, 0, real, known);
    // idle: claim the ore and plan the route
    b.tick_collector(1);
    assert_eq!(collector_of(&b, 1).destination, Some((2, 0)));
    assert_eq!(b.reserved_resources, vec![(2, 0)]);
    assert_eq!(collector_of(&b, 1).path, vec![(1, 0), (2, 0)]);
    // two steps out
    b.tick_collector(1);
    assert_eq!(collector_of(&b, 1).position_x, 1);
    b.tick_collector(1);
    assert_eq!(collector_of(&b, 1).position_x, 2);
    // pick it up: both maps lose the cell, the claim is released
    b.tick_collector(1);
    assert_eq!(collector_of(&b, 1).collected_resource, Some(TypeCase::Ore));
    assert_eq!(b.real_map[0][2], TypeCase::Void);
    assert_eq!(b.known_map[0][2], TypeCase::Void);
    assert!(b.reserved_resources.is_empty());
    assert_eq!(collector_of(&b, 1).path, vec![(1, 0), (0, 0)]);
    // two steps home
    b.tick_collector(1);
    b.tick_collector(1);
    assert_eq!(collector_of(&b, 1).position_x, 0);
    // deposit
    b.tick_collector(1);
    assert_eq!(b.ore, 1);
    assert_eq!(collector_of(&b, 1).collected_resource, None);
}

#[test]
fn collector_stays_idle_without_known_resources() {
    let real = open_map(3, 3, TypeCase::Void);
    let known = open_map(3, 3, TypeCase::Unknown);
    let mut b = new_base(3, 3, 1, 1, real, known);
    assert_eq!(b.next_resource(), None);
    b.tick_collector(1);
    let c = collector_of(&b, 1);
    assert_eq!((c.position_x, c.position_y), (1, 1));
    assert!(c.path.is_empty());
    assert_eq!(c.destination, None);
    assert_eq!(c.collected_resource, None);
    assert!(c.at_base);
    assert!(b.reserved_resources.is_empty());
}

#[test]
fn collector_discards_route_blocked_in_the_known_map() {
    let real = open_map(3, 1, TypeCase::Void);
    let mut known = open_map(3, 1, TypeCase::Void);
    known[0][1] = TypeCase::Wall;
    let mut b = new_base(3, 1, 0, 0, real, known);
    b.reserved_resources.push((2, 0));
    b.add_robot(RobotUnit::Collector(Collector {
        position_x: 0,
        position_y: 0,
        at_base: true,
        path: vec![(1, 0), (2, 0)],
        collected_resource: None,
        destination: Some((2, 0)),
    }));
    b.tick_collector(2);
    let c = collector_of(&b, 2);
    assert!(c.path.is_empty());
    assert_eq!(c.destination, None);
    assert!(b.reserved_resources.is_empty());
    assert_eq!((c.position_x, c.position_y), (0, 0));
}

#[test]
fn collector_releases_claim_after_losing_the_race() {
    let real = open_map(3, 1, TypeCase::Void);
    let known = open_map(3, 1, TypeCase::Void);
    let mut b = new_base(3, 1, 0, 0, real, known);
    b.reserved_resources.push((2, 0));
    b.add_robot(RobotUnit::Collector(Collector {
        position_x: 2,
        position_y: 0,
        at_base: false,
        path: Vec::new(),
        collected_resource: None,
        destination: Some((2, 0)),
    }));
    b.tick_collector(2);
    let c = collector_of(&b, 2);
    assert_eq!(c.collected_resource, None);
    assert_eq!(c.destination, None);
    assert!(b.reserved_resources.is_empty());
    assert_eq!(b.ore, 0);
}

#[test]
fn carrying_collector_deposits_at_base() {
    let real = open_map(3, 1, TypeCase::Void);
    let known = open_map(3, 1, TypeCase::Void);
    let mut b = new_base(3, 1, 0, 0, real, known);
    b.add_robot(RobotUnit::Collector(Collector {
        position_x: 0,
        position_y: 0,
        at_base: true,
        path: Vec::new(),
        collected_resource: Some(TypeCase::Science),
        destination: None,
    }));
    b.tick_collector(2);
    assert_eq!(b.science, 1);
    assert_eq!(collector_of(&b, 2).collected_resource, None);
}

#[test]
fn explorer_moves_and_reveals_its_footprint() {
    let real = open_map(5, 5, TypeCase::Void);
    let known = open_map(5, 5, TypeCase::Unknown);
    let mut b = new_base(5, 5, 2, 2, real, known);
    b.tick_explorer(0);
    let (nx, ny) = b.deployed_robots[0].position();
    // one cardinal step away from the start
    assert_eq!(nx.abs_diff(2) + ny.abs_diff(2), 1);
    // the footprint within Manhattan radius 2 is revealed as ground truth
    assert_eq!(b.known_map[ny][nx], TypeCase::Void);
    assert_eq!(b.known_map[2][2], TypeCase::Void);
    // the far corner is beyond every possible footprint and stays unexplored
    assert_eq!(b.known_map[4][4], TypeCase::Unknown);
}

#[test]
fn explorer_surrounded_by_walls_stays_in_place() {
    let mut real = open_map(3, 3, TypeCase::Wall);
    real[1][1] = TypeCase::Void;
    let known = open_map(3, 3, TypeCase::Unknown);
    let mut b = new_base(3, 3, 1, 1, real, known);
    b.tick_explorer(0);
    assert_eq!(b.deployed_robots[0].position(), (1, 1));
    // the footprint is still revealed from where it stands
    assert_eq!(b.known_map[1][1], TypeCase::Void);
    assert_eq!(b.known_map[0][1], TypeCase::Wall);
    assert_eq!(b.known_map[1][0], TypeCase::Wall);
}

#[test]
fn explorer_never_steps_onto_a_wall() {
    // only one viable neighbour: the explorer must take it
    let mut real = open_map(3, 3, TypeCase::Wall);
    real[1][1] = TypeCase::Void;
    real[1][2] = TypeCase::Void;
    let known = open_map(3, 3, TypeCase::Unknown);
    let mut b = new_base(3, 3, 1, 1, real, known);
    b.tick_explorer(0);
    assert_eq!(b.deployed_robots[0].position(), (2, 1));
}

#[test]
fn second_collector_cannot_claim_a_reserved_cell() {
    let mut real = open_map(5, 1, TypeCase::Void);
    real[0][4] = TypeCase::Ore;
    let known = real.clone();
    let mut b = new_base(5, 1, 0, 0, real, known);
    // the first collector claims the only ore
    b.tick_collector(1);
    assert_eq!(collector_of(&b, 1).destination, Some((4, 0)));
    // a second idle collector finds nothing left to claim
    b.add_robot(RobotUnit::Collector(Collector::new(0, 0)));
    b.tick_collector(2);
    let c = collector_of(&b, 2);
    assert_eq!(c.destination, None);
    assert!(c.path.is_empty());
    assert_eq!(b.reserved_resources, vec![(4, 0)]);
}

#[test]
fn reservation_is_always_some_collectors_target() {
    let mut real = open_map(4, 1, TypeCase::Void);
    real[0][3] = TypeCase::Energy;
    let known = real.clone();
    let mut b = new_base(4, 1, 0, 0, real, known);
    b.tick_collector(1);
    // the single claim equals the collector's stored destination
    assert_eq!(b.reserved_resources.len(), 1);
    assert_eq!(Some(b.reserved_resources[0]), collector_of(&b, 1).destination);
}
