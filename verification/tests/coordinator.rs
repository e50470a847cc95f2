use colony::base::Base;
use colony::cell::TypeCase;
use colony::pathfinding::Pos;
use colony::config::{CollectorConfig, ExplorerConfig, RobotsConfig};
use colony::robot::{Robot, RobotUnit};

fn test_config() -> RobotsConfig {
    RobotsConfig {
        explorer: ExplorerConfig {
            cost_science: 4,
            cost_ore: 3,
            cost_energy: 2,
            vision_range: 2,
            move_delay_ms: 10,
        },
        collector: CollectorConfig {
            cost_science: 1,
            cost_ore: 5,
            cost_energy: 4,
            move_delay_ms: 100,
        },
    }
}

fn open_map(width: usize, height: usize, fill: TypeCase) -> Vec<Vec<TypeCase>> {
    vec![vec![fill; width]; height]
}

fn new_base(
    width: usize,
    height: usize,
    bx: usize,
    by: usize,
    real: Vec<Vec<TypeCase>>,
    known: Vec<Vec<TypeCase>>,
) -> Base {
    Base::new(width, height, bx, by, real, known, test_config())
}

#[test]
fn new_base_is_seeded_with_one_explorer_and_one_collector() {
    let real = open_map(4, 4, TypeCase::Void);
    let known = open_map(4, 4, TypeCase::Unknown);
    let b = new_base(4, 4, 1, 2, real, known);
    assert_eq!(b.deployed_robots.len(), 2);
    assert!(matches!(b.deployed_robots[0], RobotUnit::Explorer(_)));
    assert!(matches!(b.deployed_robots[1], RobotUnit::Collector(_)));
    assert_eq!(b.deployed_robots[0].position(), (1, 2));
    assert_eq!(b.deployed_robots[1].position(), (1, 2));
    assert_eq!(b.energy, 0);
    assert_eq!(b.ore, 0);
    assert_eq!(b.science, 0);
    assert!(b.reserved_resources.is_empty());
}

#[test]
fn robot_trait_reports_kind_and_position() {
    let e = colony::robot::Explorer::new(3, 4);
    assert_eq!(e.get_type(), TypeCase::Explorer);
    assert_eq!(e.get_position_x(), 3);
    assert_eq!(e.get_position_y(), 4);
    let c = colony::robot::Collector::new(5, 6);
    assert_eq!(c.get_type(), TypeCase::Collector);
    assert_eq!(c.get_position_x(), 5);
    assert_eq!(c.get_position_y(), 6);
}

#[test]
fn manhattan_distance_exact_values() {
    assert_eq!(Base::manhattan_distance(0, 0, 3, 4), 7);
    assert_eq!(Base::manhattan_distance(3, 4, 0, 0), 7);
    assert_eq!(Base::manhattan_distance(2, 2, 2, 2), 0);
    assert_eq!(Base::manhattan_distance(7, 1, 2, 9), 13);
}

#[test]
fn deposit_increments_matching_counter_only() {
    let real = open_map(3, 3, TypeCase::Void);
    let known = open_map(3, 3, TypeCase::Unknown);
    let mut b = new_base(3, 3, 0, 0, real, known);
    b.add_resource(TypeCase::Energy);
    b.add_resource(TypeCase::Energy);
    b.add_resource(TypeCase::Ore);
    b.add_resource(TypeCase::Science);
    b.add_resource(TypeCase::Void);
    b.add_resource(TypeCase::Wall);
    assert_eq!(b.energy, 2);
    assert_eq!(b.ore, 1);
    assert_eq!(b.science, 1);
}

#[test]
fn observe_writes_known_map_in_bounds() {
    let real = open_map(3, 3, TypeCase::Void);
    let known = open_map(3, 3, TypeCase::Unknown);
    let mut b = new_base(3, 3, 0, 0, real, known);
    b.update_map(2, 1, TypeCase::Ore);
    assert_eq!(b.known_map[1][2], TypeCase::Ore);
    assert_eq!(b.known_map[0][0], TypeCase::Unknown);
}

#[test]
fn observe_out_of_bounds_is_a_no_op() {
    let real = open_map(3, 3, TypeCase::Void);
    let known = open_map(3, 3, TypeCase::Unknown);
    let mut b = new_base(3, 3, 0, 0, real, known);
    let before = b.known_map.clone();
    b.update_map(3, 0, TypeCase::Ore);
    b.update_map(0, 7, TypeCase::Ore);
    assert_eq!(b.known_map, before);
}

#[test]
fn release_of_unreserved_coordinate_is_a_no_op() {
    let mut known = open_map(4, 1, TypeCase::Void);
    known[0][2] = TypeCase::Ore;
    let real = known.clone();
    let mut b = new_base(4, 1, 0, 0, real, known);
    b.release_resource(2, 0);
    b.release_resource(3, 0);
    assert!(b.reserved_resources.is_empty());
    // the unclaimed ore is still handed out afterwards
    assert_eq!(b.next_resource(), Some((2, 0)));
}

#[test]
fn next_resource_reserves_and_release_frees() {
    let mut known = open_map(4, 1, TypeCase::Void);
    known[0][2] = TypeCase::Ore;
    let real = known.clone();
    let mut b = new_base(4, 1, 0, 0, real, known);
    assert_eq!(b.next_resource(), Some((2, 0)));
    assert_eq!(b.reserved_resources, vec![(2, 0)]);
    // the only resource is now claimed: nothing is handed out twice
    assert_eq!(b.next_resource(), None);
    b.release_resource(2, 0);
    assert_eq!(b.next_resource(), Some((2, 0)));
}

#[test]
fn next_resource_prefers_closer_cell_on_tied_scarcity() {
    // two unreserved ore cells at Manhattan distances 3 and 7, counters tied
    let mut known = open_map(8, 1, TypeCase::Void);
    known[0][3] = TypeCase::Ore;
    known[0][7] = TypeCase::Ore;
    let real = known.clone();
    let mut b = new_base(8, 1, 0, 0, real, known);
    assert_eq!(b.next_resource(), Some((3, 0)));
}

#[test]
fn next_resource_prefers_most_depleted_kind() {
    // energy is plentiful, science is empty: the farther science cell wins
    let mut known = open_map(8, 1, TypeCase::Void);
    known[0][1] = TypeCase::Energy;
    known[0][6] = TypeCase::Science;
    let real = known.clone();
    let mut b = new_base(8, 1, 0, 0, real, known);
    b.energy = 5;
    assert_eq!(b.next_resource(), Some((6, 0)));
}

#[test]
fn next_resource_returns_none_without_candidates() {
    let real = open_map(3, 3, TypeCase::Void);
    let known = open_map(3, 3, TypeCase::Unknown);
    let mut b = new_base(3, 3, 1, 1, real, known);
    assert_eq!(b.next_resource(), None);
    assert!(b.reserved_resources.is_empty());
}

#[test]
fn spawn_scenario_builds_collector_and_empties_ledger() {
    // ledger {energy:4, ore:5, science:1} against collector cost
    // {science:1, ore:5, energy:4}
    let real = open_map(4, 4, TypeCase::Void);
    let known = open_map(4, 4, TypeCase::Unknown);
    let mut b = new_base(4, 4, 0, 0, real, known);
    b.energy = 4;
    b.ore = 5;
    b.science = 1;
    let spawned = b.try_spawn();
    assert_eq!(spawned, Some(TypeCase::Collector));
    assert_eq!(b.energy, 0);
    assert_eq!(b.ore, 0);
    assert_eq!(b.science, 0);
    assert_eq!(b.deployed_robots.len(), 3);
    assert!(matches!(b.deployed_robots[2], RobotUnit::Collector(_)));
    assert_eq!(b.deployed_robots[2].position(), (0, 0));
}

#[test]
fn spawn_builds_explorer_when_ratio_is_met() {
    let real = open_map(4, 4, TypeCase::Void);
    let known = open_map(4, 4, TypeCase::Unknown);
    let mut b = new_base(4, 4, 0, 0, real, known);
    // roster: 1 explorer, 2 collectors -> ratio at target
    b.add_robot(RobotUnit::Collector(colony::robot::Collector::new(0, 0)));
    b.energy = 2;
    b.ore = 3;
    b.science = 4;
    let spawned = b.try_spawn();
    assert_eq!(spawned, Some(TypeCase::Explorer));
    assert_eq!(b.energy, 0);
    assert_eq!(b.ore, 0);
    assert_eq!(b.science, 0);
    assert_eq!(b.deployed_robots.len(), 4);
    assert!(matches!(b.deployed_robots[3], RobotUnit::Explorer(_)));
}

#[test]
fn spawn_does_nothing_on_insufficient_ledger() {
    let real = open_map(4, 4, TypeCase::Void);
    let known = open_map(4, 4, TypeCase::Unknown);
    let mut b = new_base(4, 4, 0, 0, real, known);
    b.energy = 3;
    b.ore = 5;
    b.science = 1;
    // collector needs 4 energy; explorer needs 4 science
    assert_eq!(b.try_spawn(), None);
    assert_eq!(b.energy, 3);
    assert_eq!(b.ore, 5);
    assert_eq!(b.science, 1);
    assert_eq!(b.deployed_robots.len(), 2);
}

#[test]
fn spawn_prefers_collector_while_ratio_is_below_target() {
    let real = open_map(4, 4, TypeCase::Void);
    let known = open_map(4, 4, TypeCase::Unknown);
    let mut b = new_base(4, 4, 0, 0, real, known);
    // enough for either kind; one collector per explorer is below 2:1
    b.energy = 9;
    b.ore = 9;
    b.science = 9;
    assert_eq!(b.try_spawn(), Some(TypeCase::Collector));
    assert_eq!(b.science, 8);
    assert_eq!(b.ore, 4);
    assert_eq!(b.energy, 5);
}

#[test]
fn observation_feeds_arbitration() {
    // the arbitration query only sees what has been observed
    let mut real = open_map(4, 1, TypeCase::Void);
    real[0][2] = TypeCase::Ore;
    let known = open_map(4, 1, TypeCase::Unknown);
    let mut b = new_base(4, 1, 0, 0, real, known);
    assert_eq!(b.next_resource(), None);
    b.update_map(2, 0, TypeCase::Ore);
    assert_eq!(b.next_resource(), Some((2, 0)));
}

#[test]
fn spawn_builds_explorer_when_none_exists() {
    let real = open_map(4, 4, TypeCase::Void);
    let known = open_map(4, 4, TypeCase::Unknown);
    let mut b = new_base(4, 4, 0, 0, real, known);
    // a roster of collectors only: the no-explorer rule fires first
    b.deployed_robots.clear();
    b.add_robot(RobotUnit::Collector(colony::robot::Collector::new(0, 0)));
    b.energy = 2;
    b.ore = 3;
    b.science = 4;
    assert_eq!(b.try_spawn(), Some(TypeCase::Explorer));
    assert_eq!((b.energy, b.ore, b.science), (0, 0, 0));
}

#[test]
fn positions_compare_by_coordinates() {
    assert_eq!(Pos(2, 3), Pos(2, 3));
    assert_ne!(Pos(2, 3), Pos(3, 2));
    assert!(Pos(1, 9) < Pos(2, 0));
    assert!(Pos(2, 1) < Pos(2, 4));
}

#[test]
fn cell_kind_tests_match_their_meaning() {
    assert!(colony::cell::is_resource_cell(TypeCase::Energy));
    assert!(colony::cell::is_resource_cell(TypeCase::Ore));
    assert!(colony::cell::is_resource_cell(TypeCase::Science));
    assert!(!colony::cell::is_resource_cell(TypeCase::Void));
    assert!(!colony::cell::is_resource_cell(TypeCase::Base));
    assert!(colony::cell::blocks_path_cell(TypeCase::Wall));
    assert!(colony::cell::blocks_path_cell(TypeCase::Unknown));
    assert!(!colony::cell::blocks_path_cell(TypeCase::Void));
    assert!(!colony::cell::blocks_path_cell(TypeCase::Ore));
}
