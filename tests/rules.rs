use hexrace::board::{HexMap, PlayerBuilder};
use hexrace::game::{GameState, PlayerGearStrategy, PlayerStepStrategy};
use hexrace::geometry::{ChangeGear, Coord, Direction, RuleError, Turn};
use hexrace::player::{GearStrategy, Player, Sips, StepStrategy};
use hexrace::tile::{ChoiceMemory, CoordMap, Tile};

const ALL: [Direction; 6] = [
    Direction::UR,
    Direction::U,
    Direction::UL,
    Direction::DL,
    Direction::D,
    Direction::DR,
];

/// Always asks for the same turn.
struct Fixed(Turn);

impl StepStrategy for Fixed {
    fn step_strategy(&mut self, _player: &Player, _turns: &Vec<Turn>, _tile: &Tile) -> Option<Turn> {
        Some(self.0)
    }
}

/// Never decides.
struct Undecided;

impl StepStrategy for Undecided {
    fn step_strategy(&mut self, _player: &Player, _turns: &Vec<Turn>, _tile: &Tile) -> Option<Turn> {
        None
    }
}

struct Gear(ChangeGear);

impl GearStrategy for Gear {
    fn gear_strategy(&mut self, _player: &Player) -> ChangeGear {
        self.0
    }
}

fn player_at(position: Coord, direction: Direction, roll: Vec<u8>) -> Player {
    Player {
        position,
        old_position: position,
        direction,
        outside_board: false,
        next_falls_off: false,
        forced_gear_down: false,
        gear: roll.len() as u8,
        roll,
        steps: 0,
        stalled: false,
        bonked: false,
        finished: false,
        round: 1,
        first_half: true,
    }
}

fn tiles_of(list: Vec<(Coord, Tile)>) -> CoordMap<Tile> {
    let mut m = CoordMap::new();
    for (c, t) in list {
        m.insert(c, t);
    }
    m
}

fn c(q: i32, r: i32) -> Coord {
    Coord::axel(q, r)
}

#[test]
fn direction_round_trip() {
    for d in ALL {
        assert_eq!(Direction::from_coord(d.to_coord()), Ok(d));
        assert_eq!(Direction::from_num(d.to_num()), d);
    }
}

#[test]
fn unit_steps_are_distinct_and_sum_to_zero() {
    let mut q = 0;
    let mut r = 0;
    for (i, a) in ALL.iter().enumerate() {
        for b in ALL.iter().skip(i + 1) {
            assert_ne!(a.to_coord(), b.to_coord());
        }
        q += a.to_coord().q;
        r += a.to_coord().r;
    }
    assert_eq!((q, r), (0, 0));
}

#[test]
fn from_coord_rejects_other_displacements() {
    assert_eq!(Direction::from_coord(c(2, 0)), Err(RuleError::InvalidDisplacement));
    assert_eq!(Direction::from_coord(c(0, 0)), Err(RuleError::InvalidDisplacement));
    assert_eq!(Direction::from_coord(c(1, 1)), Err(RuleError::InvalidDisplacement));
}

#[test]
fn turn_to_dir_follows_the_cyclic_order() {
    for a in ALL {
        for b in ALL {
            let (na, nb) = (a.to_num(), b.to_num());
            let expected = if a == b {
                Some(Turn::Straight)
            } else if (na + 1) % 6 == nb {
                Some(Turn::Left)
            } else if (nb + 1) % 6 == na {
                Some(Turn::Right)
            } else {
                None
            };
            assert_eq!(a.turn_to_dir(b), expected);
            if let Some(t) = expected {
                assert_eq!(a + t, b);
            }
        }
    }
    assert_eq!(Direction::UR.turn_to_dir(Direction::DR), Some(Turn::Right));
    assert_eq!(Direction::DR.turn_to_dir(Direction::UR), Some(Turn::Left));
    assert_eq!(Direction::UR.turn_to_dir(Direction::D), None);
}

#[test]
fn left_then_right_is_identity() {
    for d in ALL {
        assert_eq!(d + Turn::Left + Turn::Right, d);
        assert_eq!(d + Turn::Right + Turn::Left, d);
        assert_eq!(d + Turn::Straight, d);
    }
    assert_eq!(Direction::DR + Turn::Left, Direction::UR);
    assert_eq!(Direction::UR + Turn::Right, Direction::DR);
    assert_eq!(Turn::Left.to_num(), 1);
    assert_eq!(Turn::Right.to_num(), -1);
}

#[test]
fn gear_changes_are_clamped() {
    assert_eq!(ChangeGear::Down.update_gear(1), 1);
    assert_eq!(ChangeGear::Up.update_gear(3), 3);
    assert_eq!(ChangeGear::Down.update_gear(3), 2);
    assert_eq!(ChangeGear::Up.update_gear(1), 2);
    assert_eq!(ChangeGear::Stay.update_gear(2), 2);
}

#[test]
fn coordinate_formulas() {
    let a = Coord::tri(1, 2, 3);
    assert_eq!((a.q(), a.r(), a.s()), (-2, 5, -3));
    assert_eq!(c(3, -1) + c(-1, 4), c(2, 3));
    assert_eq!(c(3, -1) - c(-1, 4), c(4, -5));
    assert_eq!(c(3, -1) * 5, c(15, -5));
    assert_eq!(c(3, 0).x(), 4);
    assert_eq!(c(-3, 0).x(), -4);
    assert_eq!(c(2, 2).step(Direction::UR), c(3, 1));
    assert_eq!(c(2, 2).step_back(Direction::UR), c(1, 3));
}

#[test]
fn coord_map_later_entries_win() {
    let mut m: CoordMap<u8> = CoordMap::new();
    assert!(m.is_empty());
    m.insert(c(0, 0), 1);
    m.insert(c(1, 0), 2);
    m.insert(c(0, 0), 3);
    assert_eq!(m.get(c(0, 0)), Some(&3));
    assert_eq!(m.get(c(1, 0)), Some(&2));
    assert_eq!(m.get(c(2, 0)), None);
    assert!(m.contains_key(c(1, 0)));
    assert!(!m.is_empty());
}

#[test]
fn choice_memory_first_record_wins() {
    let mut m = ChoiceMemory::new();
    m.record(c(1, 1), 1, Direction::U);
    m.record(c(1, 1), 1, Direction::UL);
    m.record(c(1, 1), 2, Direction::UR);
    assert_eq!(m.get(c(1, 1), 1), Some(Direction::U));
    assert_eq!(m.get(c(1, 1), 2), Some(Direction::UR));
    assert_eq!(m.get(c(1, 1), 3), None);
}

#[test]
fn tile_builders_set_their_flags() {
    let t = Tile::new(vec![Direction::U]).start().blue().chikane().choice().rotate().oneway();
    assert!(t.start_field && t.blue && t.chikane && t.choice && t.rotate && t.oneway);
    assert_eq!(t.directions, vec![Direction::U]);
    let t = Tile::default().blockage(vec![Direction::D]);
    assert_eq!(t.blockage, vec![Direction::D]);
    assert!(!t.blue && t.directions.is_empty() && t.forced.is_empty());
    let s = Sips::default();
    assert_eq!((s.whines, s.ones, s.fell_out), (0, 0, false));
}

#[test]
fn forced_tile_takes_mapped_direction() {
    // The player arrives at F from A, below it; F would allow U and UL, but
    // arriving from A forces UR.
    let a = c(0, 1);
    let f = c(0, 0);
    let mut forced = CoordMap::new();
    forced.insert(a, Direction::UR);
    forced.insert(c(5, 5), Direction::UL);
    let tiles = tiles_of(vec![
        (a, Tile::new(vec![Direction::U])),
        (f, Tile::new(vec![Direction::U, Direction::UL]).forced(forced)),
    ]);
    for requested in [Turn::Straight, Turn::Left, Turn::Right] {
        let mut p = player_at(a, Direction::U, vec![2, 2]);
        let turns = p.pre_step(&tiles, &vec![], &ChoiceMemory::new()).unwrap().unwrap();
        assert_eq!(turns, vec![Turn::Right]);
        assert_eq!(p.step(&turns, &tiles, &mut Fixed(requested)), Ok(true));
        assert_eq!(p.direction, Direction::UR);
        assert!(!p.next_falls_off);
    }
}

#[test]
fn too_fast_goes_straight() {
    let a = c(0, 1);
    let b = c(0, 0);
    let tiles = tiles_of(vec![
        (a, Tile::new(vec![Direction::U])),
        (b, Tile::new(vec![Direction::U, Direction::UL, Direction::UR])),
    ]);
    let mut p = player_at(a, Direction::U, vec![4, 4, 2]);
    assert!(p.is_too_fast());
    assert_eq!(p.pip_total(), 10);
    let turns = p.pre_step(&tiles, &vec![], &ChoiceMemory::new()).unwrap().unwrap();
    assert_eq!(turns, vec![Turn::Straight]);
    assert_eq!(p.step(&turns, &tiles, &mut Fixed(Turn::Left)), Ok(true));
    assert_eq!(p.direction, Direction::U);

    let mut slow = player_at(a, Direction::U, vec![4, 4, 1]);
    assert!(!slow.is_too_fast());
    let turns = slow.pre_step(&tiles, &vec![], &ChoiceMemory::new()).unwrap().unwrap();
    assert_eq!(turns, vec![Turn::Straight, Turn::Left, Turn::Right]);
    assert_eq!(slow.step(&turns, &tiles, &mut Fixed(Turn::Left)), Ok(true));
    assert_eq!(slow.direction, Direction::UL);
}

#[test]
fn choice_is_replayed_in_the_same_round() {
    let a = c(0, 1);
    let fork = c(0, 0);
    let tiles = tiles_of(vec![
        (a, Tile::new(vec![Direction::U])),
        (fork, Tile::new(vec![Direction::UL, Direction::UR]).choice()),
    ]);
    let mut memory = ChoiceMemory::new();
    memory.record(fork, 1, Direction::UL);

    let mut p = player_at(a, Direction::U, vec![2, 2]);
    let turns = p.pre_step(&tiles, &vec![], &memory).unwrap().unwrap();
    assert_eq!(turns, vec![Turn::Left]);
    assert_eq!(p.step(&turns, &tiles, &mut Fixed(Turn::Left)), Ok(true));
    assert_eq!(p.direction, Direction::UL);
    assert!(!p.next_falls_off);

    // A different request at the fork throws the player off one pip later.
    let mut q = player_at(a, Direction::U, vec![2, 2]);
    let turns = q.pre_step(&tiles, &vec![], &memory).unwrap().unwrap();
    assert_eq!(q.step(&turns, &tiles, &mut Fixed(Turn::Right)), Ok(true));
    assert!(q.next_falls_off);
    assert_eq!(q.pre_step(&tiles, &vec![], &memory).unwrap(), None);
    assert!(q.outside_board && q.finished && q.stalled);

    // In another round the fork offers both exits.
    let mut r = player_at(a, Direction::U, vec![2, 2]);
    r.round = 2;
    let turns = r.pre_step(&tiles, &vec![], &memory).unwrap().unwrap();
    assert_eq!(turns, vec![Turn::Left, Turn::Right]);
}

#[test]
fn leaving_the_board_past_the_last_tile() {
    let a = c(0, 0);
    let b = c(0, 1);
    let tiles = tiles_of(vec![
        (a, Tile::new(vec![Direction::D])),
        (b, Tile::new(vec![Direction::D])),
    ]);
    // One pip: the player rests on B.
    let mut p = player_at(a, Direction::D, vec![1]);
    let turns = p.pre_step(&tiles, &vec![], &ChoiceMemory::new()).unwrap().unwrap();
    assert_eq!(p.step(&turns, &tiles, &mut Fixed(Turn::Straight)), Ok(true));
    assert_eq!(p.position, b);
    assert!(p.finished && !p.outside_board);

    // Two pips: the second pip leaves B for a cell off the board.
    let mut p = player_at(a, Direction::D, vec![2]);
    let turns = p.pre_step(&tiles, &vec![], &ChoiceMemory::new()).unwrap().unwrap();
    assert_eq!(p.step(&turns, &tiles, &mut Fixed(Turn::Straight)), Ok(true));
    assert!(!p.finished);
    assert_eq!(p.pre_step(&tiles, &vec![], &ChoiceMemory::new()), Ok(None));
    assert_eq!(p.position, c(0, 2));
    assert_eq!(p.old_position, b);
    assert!(p.finished && p.outside_board && p.stalled);

    // The next move brings it back onto B, facing B's first exit.
    p.finished = false;
    assert_eq!(p.pre_step(&tiles, &vec![], &ChoiceMemory::new()), Ok(None));
    assert_eq!(p.position, b);
    assert_eq!(p.direction, Direction::D);
    assert!(!p.outside_board);
}

#[test]
fn reentry_without_a_tile_is_an_error() {
    let tiles = tiles_of(vec![(c(0, 0), Tile::new(vec![Direction::D]))]);
    let mut p = player_at(c(4, 4), Direction::D, vec![1]);
    p.old_position = c(3, 3);
    p.outside_board = true;
    assert_eq!(p.pre_step(&tiles, &vec![], &ChoiceMemory::new()), Err(RuleError::MissingTileData));
    assert_eq!(p.position, c(4, 4));
    let empty = tiles_of(vec![(c(3, 3), Tile::new(vec![]))]);
    assert_eq!(p.pre_step(&empty, &vec![], &ChoiceMemory::new()), Err(RuleError::MissingTileData));
    assert_eq!(p.step(&vec![], &tiles, &mut Fixed(Turn::Straight)), Err(RuleError::MissingTileData));
}

#[test]
fn blocked_exit_throws_off_next_pip() {
    let a = c(0, 1);
    let b = c(0, 0);
    let tiles = tiles_of(vec![
        (a, Tile::new(vec![Direction::U])),
        (b, Tile::new(vec![Direction::U]).blockage(vec![Direction::U])),
    ]);
    let mut p = player_at(a, Direction::U, vec![3]);
    let turns = p.pre_step(&tiles, &vec![], &ChoiceMemory::new()).unwrap().unwrap();
    assert_eq!(p.step(&turns, &tiles, &mut Fixed(Turn::Straight)), Ok(true));
    assert!(p.next_falls_off);
}

#[test]
fn undecided_strategy_leaves_player_unchanged() {
    let a = c(0, 1);
    let b = c(0, 0);
    let tiles = tiles_of(vec![(a, Tile::new(vec![Direction::U])), (b, Tile::new(vec![Direction::U]))]);
    let mut p = player_at(a, Direction::U, vec![2]);
    let turns = p.pre_step(&tiles, &vec![], &ChoiceMemory::new()).unwrap().unwrap();
    assert_eq!(p.step(&turns, &tiles, &mut Undecided), Ok(false));
    assert_eq!(p.steps, 0);
    assert_eq!(p.position, b);
}

#[test]
fn roll_follows_gear_rules() {
    let mut p = player_at(c(0, 0), Direction::U, vec![]);
    p.gear = 1;
    p.stalled = true;
    p.roll_dice(&mut Gear(ChangeGear::Up));
    assert_eq!(p.gear, 1);
    assert!(!p.stalled);
    assert_eq!(p.roll.len(), 1);
    p.roll_dice(&mut Gear(ChangeGear::Up));
    assert_eq!(p.gear, 2);
    p.roll_dice(&mut Gear(ChangeGear::Up));
    p.roll_dice(&mut Gear(ChangeGear::Up));
    assert_eq!(p.gear, 3);
    assert_eq!(p.roll.len(), 3);
    assert!(p.roll.iter().all(|f| (1..=4).contains(f)));
    assert_eq!(p.steps, 0);
    assert!(!p.finished);
}

#[test]
fn dice_faces_cover_the_die() {
    let mut p = player_at(c(0, 0), Direction::U, vec![]);
    p.gear = 3;
    let mut seen = [false; 5];
    for _ in 0..400 {
        p.roll_dice(&mut Gear(ChangeGear::Stay));
        for f in &p.roll {
            assert!((1..=4).contains(f));
            seen[*f as usize] = true;
        }
    }
    assert!(seen[1] && seen[2] && seen[3] && seen[4]);
}

/// A straight track along D from (0, -3) to (0, 3), with a start line at
/// (0, 2) facing D and a mid line at (0, -1) facing D.
fn straight_map(placements: Vec<(Coord, Direction)>, special: Vec<(Coord, Tile)>) -> HexMap {
    let mut tiles = CoordMap::new();
    for r in -3..=3 {
        tiles.insert(c(0, r), Tile::new(vec![Direction::D]));
    }
    for (k, t) in special {
        tiles.insert(k, t);
    }
    HexMap {
        tiles,
        start_line: vec![(c(0, 2), vec![Direction::D])],
        mid_line: vec![(c(0, -1), vec![Direction::D])],
        player_builder: PlayerBuilder::new(placements.len(), placements),
    }
}

fn strategies(n: usize) -> Vec<(PlayerGearStrategy, PlayerStepStrategy)> {
    vec![(PlayerGearStrategy::Best, PlayerStepStrategy::Best); n]
}

#[test]
fn collision_bonks_back() {
    let map = straight_map(
        vec![
            (c(0, 0), Direction::D),
            (c(0, 0), Direction::D),
            (c(0, -1), Direction::D),
        ],
        vec![],
    );
    let mut g = GameState::new(map, strategies(3));
    assert_eq!(g.blockages, vec![c(0, 0)]);
    assert_eq!(g.update_gameboard(), vec![c(0, 0)]);

    g.player_index = 2;
    g.rolling = false;
    g.players[2].stalled = false;
    g.players[2].roll = vec![3];
    let r = g.step_game(&mut Gear(ChangeGear::Stay), &mut Fixed(Turn::Straight));
    assert_eq!(r, Ok(true));
    let p = &g.players[2];
    assert!(p.bonked && p.finished);
    assert_eq!(p.position, c(0, -1));
    assert_eq!(g.player_index, 0);
    assert!(g.rolling);
}

#[test]
fn lone_player_on_chikane_blocks() {
    let map = straight_map(
        vec![(c(0, 1), Direction::D), (c(0, -2), Direction::D)],
        vec![(c(0, 1), Tile::new(vec![Direction::D]).chikane())],
    );
    let g = GameState::new(map, strategies(2));
    assert_eq!(g.blockages, vec![c(0, 1)]);
}

#[test]
fn speed_zone_forces_gear_down() {
    let map = straight_map(
        vec![(c(0, -3), Direction::D)],
        vec![(c(0, -1), Tile::new(vec![Direction::D]).blue())],
    );
    let mut g = GameState::new(map, strategies(1));
    g.rolling = false;
    g.players[0].stalled = false;
    g.players[0].gear = 2;
    g.players[0].roll = vec![1, 1];
    let r = g.step_game(&mut Gear(ChangeGear::Stay), &mut Fixed(Turn::Straight));
    assert_eq!(r, Ok(false));
    assert!(!g.players[0].forced_gear_down);
    let r = g.step_game(&mut Gear(ChangeGear::Stay), &mut Fixed(Turn::Straight));
    assert_eq!(r, Ok(true));
    assert_eq!(g.players[0].position, c(0, -1));
    assert!(g.players[0].forced_gear_down);
    assert!(g.rolling);

    // The best strategy asks for a gear up, but the speed zone forces one down.
    assert_eq!(g.step_game(&mut Gear(ChangeGear::Up), &mut Fixed(Turn::Straight)), Ok(false));
    assert_eq!(g.players[0].gear, 1);
    assert_eq!(g.players[0].roll.len(), 1);
    assert!(!g.players[0].forced_gear_down);
    assert!(!g.rolling);
}

#[test]
fn manual_players_wait_for_a_decision() {
    let map = straight_map(vec![(c(0, -3), Direction::D)], vec![]);
    let mut g = GameState::new(map, vec![(PlayerGearStrategy::Manual, PlayerStepStrategy::Manual)]);
    assert_eq!(g.step_game(&mut Gear(ChangeGear::Stay), &mut Undecided), Ok(false));
    assert_eq!(g.players[0].gear, 1);
    g.players[0].roll = vec![1];
    assert_eq!(g.step_game(&mut Gear(ChangeGear::Stay), &mut Undecided), Ok(false));
    assert!(g.awaiting.is_some());
    assert_eq!(g.players[0].position, c(0, -2));
    assert_eq!(g.step_game(&mut Gear(ChangeGear::Stay), &mut Undecided), Ok(false));
    assert_eq!(g.players[0].position, c(0, -2));
    assert_eq!(g.step_game(&mut Gear(ChangeGear::Stay), &mut Fixed(Turn::Straight)), Ok(true));
    assert!(g.awaiting.is_none());
    assert!(g.rolling);
}

#[test]
fn laps_are_counted_at_the_lines() {
    let map = straight_map(vec![(c(0, -2), Direction::D)], vec![]);
    let mut g = GameState::new(map, strategies(1));
    g.rolling = false;
    g.players[0].stalled = false;
    g.players[0].roll = vec![4];
    let mut manual = Fixed(Turn::Straight);
    for _ in 0..4 {
        let _ = g.step_game(&mut Gear(ChangeGear::Stay), &mut manual);
    }
    // Crossed the mid line at (0, -1) and then the start line at (0, 2).
    assert_eq!(g.players[0].position, c(0, 2));
    assert!(!g.players[0].first_half);
    g.rolling = false;
    g.players[0].roll = vec![1];
    g.players[0].steps = 0;
    g.players[0].finished = false;
    let _ = g.step_game(&mut Gear(ChangeGear::Stay), &mut manual);
    assert_eq!(g.players[0].round, 2);
    assert!(g.players[0].first_half);
}

#[test]
fn choices_are_remembered_by_the_game() {
    let map = straight_map(
        vec![(c(0, -3), Direction::D)],
        vec![(c(0, -2), Tile::new(vec![Direction::D, Direction::DL]).choice())],
    );
    let mut g = GameState::new(map, strategies(1));
    g.rolling = false;
    g.players[0].stalled = false;
    g.players[0].roll = vec![2];
    let mut manual = Fixed(Turn::Straight);
    let _ = g.step_game(&mut Gear(ChangeGear::Stay), &mut manual);
    let _ = g.step_game(&mut Gear(ChangeGear::Stay), &mut manual);
    let d = g.choice_tile_selections.get(c(0, -2), 1);
    assert!(d == Some(Direction::D) || d == Some(Direction::DL));
}

#[test]
fn shortest_path_marks_directions_to_finish() {
    let map = straight_map(vec![(c(0, -3), Direction::D)], vec![]);
    let dirs = map.shortest_path();
    for r in -3..=1 {
        assert_eq!(dirs.get(c(0, r)), Some(&vec![Direction::D]));
    }
    // The search starts one step before the start line and never passes it.
    assert_eq!(dirs.get(c(0, 2)), Some(&vec![]));
    assert_eq!(dirs.get(c(0, 3)), Some(&vec![]));
    assert_eq!(dirs.get(c(5, 5)), None);
}

#[test]
fn shortest_path_on_a_fork() {
    // Two ways from (0, -2) to the start line at (0, 0): straight down, or
    // down-left then down-right.
    let mut tiles = CoordMap::new();
    tiles.insert(c(0, -2), Tile::new(vec![Direction::D, Direction::DL]));
    tiles.insert(c(0, -1), Tile::new(vec![Direction::D]));
    tiles.insert(c(-1, -1), Tile::new(vec![Direction::D]));
    tiles.insert(c(-1, 0), Tile::new(vec![Direction::DR]));
    tiles.insert(c(0, 0), Tile::new(vec![Direction::D]));
    let map = HexMap {
        tiles,
        start_line: vec![(c(0, 0), vec![Direction::D])],
        mid_line: vec![],
        player_builder: PlayerBuilder::new(0, vec![]),
    };
    let dirs = map.shortest_path();
    let at_fork = dirs.get(c(0, -2)).unwrap();
    assert!(at_fork.contains(&Direction::D));
    assert!(at_fork.contains(&Direction::DL));
    assert_eq!(at_fork[0], Direction::D);
}

#[test]
fn builder_hands_out_fresh_players() {
    let mut b = PlayerBuilder::new(2, vec![(c(1, 1), Direction::U), (c(2, 2), Direction::D)]);
    let p = b.next_player();
    assert_eq!((p.position, p.direction, p.gear, p.round), (c(1, 1), Direction::U, 1, 1));
    assert!(p.stalled && p.first_half && p.roll.is_empty());
    let rest = b.all_players();
    assert_eq!(rest.len(), 1);
    assert_eq!(rest[0].position, c(2, 2));
    assert_eq!(b.all_players().len(), 0);
}

#[test]
fn pixel_conversions_round_toward_zero() {
    assert_eq!(Coord::new(360, 700), c(240, 284));
    assert_eq!(Coord::new(-10, 5), c(-6, 6));
    assert_eq!(Coord::new(10, -5), c(6, -6));
    assert_eq!(Coord::new(3, 0), c(2, -1));
    assert_eq!(Coord::new(0, 0), c(0, 0));
    assert_eq!(Coord::new(-7, -9), c(-4, -2));
    assert_eq!(c(0, 1).y(), 1);
    assert_eq!(c(1, 0).y(), 0);
    assert_eq!(c(0, -1).y(), -1);
    assert_eq!(c(3, 4).y(), 9);
    assert_eq!(c(-3, -4).y(), -9);
    assert_eq!(c(100, -7).y(), 74);
}
