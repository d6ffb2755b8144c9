//! The turn order of a game: each player rolls, then moves pip by pip; after
//! each pip the game remembers choices at forks and counts laps, and after
//! each move it finds the blocked cells and hands the turn on.
use vstd::prelude::*;
use crate::board::{HexMap, board_in_range, fresh_player};
use crate::chance::pick;
use crate::geometry::{ChangeGear, Coord, Direction, RuleError, Turn, MAX_GEAR, MIN_GEAR, unit};
use crate::player::{
    GearStrategy, Player, StepStrategy, after_turn, direction_listed, gear_shifted,
    lemma_roll_bounds, pips, pre_step_outcome, turns_toward, valid_roll,
};
use crate::tile::{ChoiceMemory, CoordMap, Tile};

verus! {

/// Who steers a player.
#[derive(Clone, Copy, PartialEq, Eq, Structural, Debug)]
pub enum PlayerStepStrategy {
    Best,
    Manual,
}

/// Who changes a player's gear.
#[derive(Clone, Copy, PartialEq, Eq, Structural, Debug)]
pub enum PlayerGearStrategy {
    Best,
    Manual,
}

/// Whether some player stands at `c`.
pub open spec fn occupied(ps: Seq<Player>, c: Coord) -> bool {
    exists|i: int| 0 <= i < ps.len() && #[trigger] ps[i].position == c
}

/// Whether two players stand at `c`.
pub open spec fn shared(ps: Seq<Player>, c: Coord) -> bool {
    exists|i: int, j: int|
        0 <= i < j < ps.len() && #[trigger] ps[i].position == c && #[trigger] ps[j].position == c
}

/// Whether `c` is a narrow passage of the board.
pub open spec fn chikane_at(tiles: Map<Coord, Tile>, c: Coord) -> bool {
    tiles.contains_key(c) && tiles[c].chikane
}

/// Whether players block `c`: two of them stand there, or one stands on a
/// narrow passage.
pub open spec fn blocked(ps: Seq<Player>, tiles: Map<Coord, Tile>, c: Coord) -> bool {
    shared(ps, c) || (occupied(ps, c) && chikane_at(tiles, c))
}

/// The turn by which the cell ahead, after steering `t`, is not blocked.
pub open spec fn first_open(turns: Seq<Turn>, pos: Coord, facing: Direction, blockages: Seq<Coord>) -> Option<
    Turn,
>
    decreases turns.len(),
{
    if turns.len() == 0 {
        None
    } else if !cell_blocked(blockages, pos, crate::geometry::turned(facing, turns[0])) {
        Some(turns[0])
    } else {
        first_open(turns.drop_first(), pos, facing, blockages)
    }
}

/// Whether the cell one step from `pos` in direction `d` is listed.
pub open spec fn cell_blocked(blockages: Seq<Coord>, pos: Coord, d: Direction) -> bool {
    exists|k: int|
        0 <= k < blockages.len() && #[trigger] blockages[k].q == pos.q + unit(d).q && blockages[k].r
            == pos.r + unit(d).r
}

fn ahead_blocked(blockages: &Vec<Coord>, pos: Coord, d: Direction) -> (r: bool)
    ensures
        r == cell_blocked(blockages@, pos, d),
{
    let u = d.to_coord();
    let q = pos.q as i64 + u.q as i64;
    let r = pos.r as i64 + u.r as i64;
    let mut k: usize = 0;
    while k < blockages.len()
        invariant
            k <= blockages@.len(),
            q == pos.q + unit(d).q,
            r == pos.r + unit(d).r,
            forall|j: int|
                0 <= j < k ==> !(#[trigger] blockages@[j].q == pos.q + unit(d).q && blockages@[j].r
                    == pos.r + unit(d).r),
        decreases blockages.len() - k,
    {
        if blockages[k].q as i64 == q && blockages[k].r as i64 == r {
            return true;
        }
        k = k + 1;
    }
    false
}

/// Steers toward the finish along the precomputed directions, avoiding
/// blocked cells when no such direction is open, and picking at random at
/// forks.
pub struct BestStepStategy<'a> {
    pub blockages: &'a Vec<Coord>,
    pub shortest_dist_map: &'a CoordMap<Vec<Direction>>,
}

impl<'a> BestStepStategy<'a> {
    /// The turns toward the finish for `player`, by the precomputed
    /// directions of its cell.
    pub open spec fn best_turns(&self, player: Player) -> Seq<Turn> {
        if self.shortest_dist_map@.contains_key(player.position) {
            turns_toward(player.direction, self.shortest_dist_map@[player.position]@, false)
        } else {
            Seq::empty()
        }
    }

    /// The decision for `player` on `tile` among `turns`: the first turn
    /// toward the finish (any allowed turn at a fork); with none toward the
    /// finish, the first allowed turn whose cell ahead is free, else the first
    /// allowed turn, else straight on.
    pub fn decide(&self, player: &Player, turns: &Vec<Turn>, tile: &Tile) -> (r: Turn)
        ensures
            self.best_turns(*player).len() == 0 ==> r == (if turns@.len() == 0 {
                Turn::Straight
            } else {
                match first_open(turns@, player.position, player.direction, self.blockages@) {
                    Some(t) => t,
                    None => turns@[0],
                }
            }),
            self.best_turns(*player).len() > 0 && (!tile.choice || turns@.len() == 0) ==> r
                == self.best_turns(*player)[0],
            self.best_turns(*player).len() > 0 && tile.choice && turns@.len() > 0
                ==> turns@.contains(r),
    {
        let best = match self.shortest_dist_map.get(player.position) {
            Some(dirs) => crate::player::turns_to_exits(player.direction, dirs, false),
            None => Vec::new(),
        };
        assert(best@ == self.best_turns(*player));
        if best.len() == 0 {
            if turns.len() == 0 {
                Turn::Straight
            } else {
                let ghost ts = turns@;
                let mut i: usize = 0;
                assert(ts.subrange(0, ts.len() as int) =~= ts);
                while i < turns.len()
                    invariant
                        i <= ts.len(),
                        ts == turns@,
                        ts.len() > 0,
                        best@.len() == 0,
                        best@ == self.best_turns(*player),
                        first_open(ts, player.position, player.direction, self.blockages@)
                            == first_open(
                            ts.subrange(i as int, ts.len() as int),
                            player.position,
                            player.direction,
                            self.blockages@,
                        ),
                    decreases ts.len() - i,
                {
                    let t = turns[i];
                    let ghost rest = ts.subrange(i as int, ts.len() as int);
                    assert(rest[0] == t);
                    if !ahead_blocked(self.blockages, player.position, player.direction + t) {
                        return t;
                    }
                    assert(rest.drop_first() =~= ts.subrange(i + 1, ts.len() as int));
                    i = i + 1;
                }
                assert(ts.subrange(i as int, ts.len() as int) =~= Seq::<Turn>::empty());
                turns[0]
            }
        } else if tile.choice && turns.len() > 0 {
            pick(turns)
        } else {
            best[0]
        }
    }
}

impl<'a> StepStrategy for BestStepStategy<'a> {
    fn step_strategy(&mut self, player: &Player, turns: &Vec<Turn>, tile: &Tile) -> Option<Turn> {
        Some(self.decide(player, turns, tile))
    }
}

/// Always changes gear up.
pub struct BestGearStrategy {}

impl GearStrategy for BestGearStrategy {
    fn gear_strategy(&mut self, player: &Player) -> ChangeGear {
        ChangeGear::Up
    }
}

proof fn lemma_players_push(pre: Seq<Player>, q: Player)
    ensures
        forall|c: Coord| #[trigger] occupied(pre.push(q), c) <==> (occupied(pre, c) || c == q.position),
        forall|c: Coord|
            #[trigger] shared(pre.push(q), c) <==> (shared(pre, c) || (c == q.position && occupied(pre, c))),
{
    let post = pre.push(q);
    assert forall|c: Coord| #[trigger] occupied(post, c) <==> (occupied(pre, c) || c == q.position) by {
        if occupied(pre, c) {
            let k = choose|k: int| 0 <= k < pre.len() && #[trigger] pre[k].position == c;
            assert(post[k].position == c);
        }
        if c == q.position {
            assert(post[pre.len() as int].position == c);
        }
        if occupied(post, c) && c != q.position {
            let k = choose|k: int| 0 <= k < post.len() && #[trigger] post[k].position == c;
            assert(pre[k].position == c);
        }
    }
    assert forall|c: Coord|
        #[trigger] shared(post, c) <==> (shared(pre, c) || (c == q.position && occupied(pre, c))) by {
        if shared(pre, c) {
            let (a, b) = choose|a: int, b: int|
                0 <= a < b < pre.len() && #[trigger] pre[a].position == c && #[trigger] pre[b].position
                    == c;
            assert(post[a].position == c && post[b].position == c);
        }
        if c == q.position && occupied(pre, c) {
            let a = choose|a: int| 0 <= a < pre.len() && #[trigger] pre[a].position == c;
            assert(post[a].position == c && post[pre.len() as int].position == c);
        }
        if shared(post, c) {
            let (a, b) = choose|a: int, b: int|
                0 <= a < b < post.len() && #[trigger] post[a].position == c
                    && #[trigger] post[b].position == c;
            if b < pre.len() {
                assert(pre[a].position == c && pre[b].position == c);
            } else {
                assert(pre[a].position == c);
            }
        }
    }
}

/// The cells that players block, each listed once per blocking player after
/// the first at a cell, or for a lone player on a narrow passage.
pub fn blocked_cells(players: &Vec<Player>, tiles: &CoordMap<Tile>) -> (r: Vec<Coord>)
    ensures
        forall|c: Coord| r@.contains(c) <==> blocked(players@, tiles@, c),
{
    let ghost ps = players@;
    let mut positions: Vec<Coord> = Vec::new();
    let mut blockages: Vec<Coord> = Vec::new();
    let mut i: usize = 0;
    while i < players.len()
        invariant
            i <= ps.len(),
            ps == players@,
            positions@.len() == i,
            forall|k: int| 0 <= k < i ==> #[trigger] positions@[k] == ps[k].position,
            forall|c: Coord|
                blockages@.contains(c) <==> blocked(ps.subrange(0, i as int), tiles@, c),
        decreases ps.len() - i,
    {
        let p = &players[i];
        let ghost pre = ps.subrange(0, i as int);
        let ghost post = ps.subrange(0, i + 1);
        let seen = crate::player::coord_listed(&positions, p.position);
        let on_chikane = match tiles.get(p.position) {
            Some(t) => t.chikane,
            None => false,
        };
        let ghost b0 = blockages@;
        let ghost pos0 = positions@;
        if seen || on_chikane {
            blockages.push(p.position);
        }
        positions.push(p.position);
        proof {
            assert(post =~= pre.push(ps[i as int]));
            lemma_players_push(pre, ps[i as int]);
            assert(seen == occupied(pre, p.position)) by {
                if seen {
                    let a = choose|a: int| 0 <= a < pos0.len() && pos0[a] == p.position;
                    assert(pre[a].position == p.position);
                }
                if occupied(pre, p.position) {
                    let a = choose|a: int| 0 <= a < pre.len() && #[trigger] pre[a].position == p.position;
                    assert(pos0[a] == p.position);
                }
            }
            assert forall|c: Coord| blockages@.contains(c) <==> (b0.contains(c) || (c == p.position && (
            seen || on_chikane))) by {
                if b0.contains(c) {
                    let k = choose|k: int| 0 <= k < b0.len() && b0[k] == c;
                    assert(blockages@[k] == c);
                }
                if blockages@.contains(c) && !b0.contains(c) {
                    let k = choose|k: int| 0 <= k < blockages@.len() && blockages@[k] == c;
                    assert(k == b0.len());
                }
                if c == p.position && (seen || on_chikane) {
                    assert(blockages@[b0.len() as int] == c);
                }
            }
            assert(on_chikane == chikane_at(tiles@, p.position));
            assert forall|c: Coord| blockages@.contains(c) <==> blocked(post, tiles@, c) by {
                assert(b0.contains(c) <==> blocked(pre, tiles@, c));
                assert(occupied(post, c) <==> (occupied(pre, c) || c == p.position));
                assert(shared(post, c) <==> (shared(pre, c) || (c == p.position && occupied(pre, c))));
            }
        }
        i = i + 1;
    }
    assert(ps.subrange(0, ps.len() as int) =~= ps);
    blockages
}

/// Board cells lie within this distance of the origin on both axes, which
/// keeps every move within the machine integers.
pub const COORD_BOUND: i32 = 0x3fff_ffff;

/// Whether both axes of `c` lie within `k` of the origin.
pub open spec fn within(c: Coord, k: int) -> bool {
    -k <= c.q <= k && -k <= c.r <= k
}

/// Whether a player's cells and flags are consistent with the board: a player
/// is at most two cells off the board, and a fall is only due from a tile.
pub open spec fn player_in_range(p: Player, tiles: Map<Coord, Tile>) -> bool {
    &&& within(p.old_position, COORD_BOUND + 1)
    &&& within(p.position, COORD_BOUND + 2)
    &&& !p.outside_board ==> within(p.position, COORD_BOUND + 1)
    &&& p.next_falls_off ==> tiles.contains_key(p.position)
    &&& MIN_GEAR <= p.gear <= MAX_GEAR
}

/// The direction recorded at a fork after player `p` left `p.old_position`
/// facing `d0`: the first player through a fork in a round records the
/// direction it left by, if that is one of the fork's exits.
pub open spec fn choice_after(
    mem: Map<(Coord, int), Direction>,
    tiles: Map<Coord, Tile>,
    p: Player,
    d0: Direction,
) -> Map<(Coord, int), Direction> {
    let c = p.old_position;
    if tiles.contains_key(c) && tiles[c].choice && !mem.contains_key((c, p.round as int))
        && tiles[c].directions@.contains(d0) {
        mem.insert((c, p.round as int), d0)
    } else {
        mem
    }
}

/// Whether the player's last pip, leaving `p.old_position` facing `d0`,
/// crossed `line`.
pub open spec fn crosses(line: Seq<(Coord, Vec<Direction>)>, p: Player, d0: Direction) -> bool {
    p.position != p.old_position && exists|k: int|
        0 <= k < line.len() && #[trigger] line[k].0 == p.old_position && line[k].1@.contains(d0)
}

/// The lap count after a pip: crossing the mid line ends the first half of a
/// lap, and crossing the start line after it starts the next lap.
pub open spec fn lap_after(
    p: Player,
    mid: Seq<(Coord, Vec<Direction>)>,
    start: Seq<(Coord, Vec<Direction>)>,
    d0: Direction,
) -> Player {
    if p.first_half {
        if crosses(mid, p, d0) {
            Player { first_half: false, ..p }
        } else {
            p
        }
    } else if crosses(start, p, d0) {
        Player { round: (p.round + 1) as usize, first_half: true, ..p }
    } else {
        p
    }
}

/// A player that ends its move on a speed zone must change gear down at its
/// next roll.
pub open spec fn finish_after(p: Player, tiles: Map<Coord, Tile>) -> Player {
    if p.finished && tiles.contains_key(p.position) && tiles[p.position].blue {
        Player { forced_gear_down: true, ..p }
    } else {
        p
    }
}

/// A player whose move ends on a speed zone, and that is not stalled, gets
/// one gear less at its next roll than it had, whatever change it asks for.
pub proof fn lemma_speed_zone_gear_down(p: Player, tiles: Map<Coord, Tile>, requested: ChangeGear)
    requires
        p.finished,
        tiles.contains_key(p.position),
        tiles[p.position].blue,
        !p.stalled,
    ensures
        gear_shifted(finish_after(p, tiles), requested).gear == crate::geometry::gear_after(
            ChangeGear::Down,
            p.gear as int,
        ),
{
}

/// A game: the board, the players and who decides for them, whose turn it
/// is and whether that player is still to roll, the blocked cells, the
/// directions toward the finish, and the directions chosen at forks.
pub struct GameState {
    pub map: HexMap,
    pub players: Vec<Player>,
    pub player_strategies: Vec<(PlayerGearStrategy, PlayerStepStrategy)>,
    pub player_index: usize,
    pub rolling: bool,
    pub blockages: Vec<Coord>,
    pub shortest_dist_map: CoordMap<Vec<Direction>>,
    pub choice_tile_selections: ChoiceMemory,
    /// While the current player has not decided how to steer: the turns open
    /// to it, and the direction it faced before the pip.
    pub awaiting: Option<(Vec<Turn>, Direction)>,
}

/// The game after the bookkeeping that ends a pip of player `mover`, who faced
/// `d0` before the pip: the fork memory, the lap count, a speed zone's
/// penalty, and, when the move is finished, the turn handed to the next
/// player with the blocked cells found anew.
pub open spec fn settled(old: GameState, mover: Player, d0: Direction, new: GameState, r: bool) -> bool {
    let i = old.player_index as int;
    let tiles = old.map.tiles@;
    let after = finish_after(lap_after(mover, old.map.mid_line@, old.map.start_line@, d0), tiles);
    &&& new.map == old.map
    &&& new.player_strategies == old.player_strategies
    &&& new.shortest_dist_map == old.shortest_dist_map
    &&& new.awaiting is None
    &&& new.players@ == old.players@.update(i, after)
    &&& new.choice_tile_selections@ == choice_after(old.choice_tile_selections@, tiles, mover, d0)
    &&& r == mover.finished
    &&& mover.finished ==> {
        &&& new.rolling
        &&& new.player_index == (old.player_index + 1) % (old.players@.len() as int)
        &&& forall|c: Coord| new.blockages@.contains(c) <==> blocked(new.players@, tiles, c)
    }
    &&& !mover.finished ==> {
        &&& new.rolling == old.rolling
        &&& new.player_index == old.player_index
        &&& new.blockages == old.blockages
    }
}

/// Where a pip of the current player starts: the player once it has moved
/// (or as it stands, while it is still deciding how to steer), the turns open
/// to it (or the end of the pip, or an error), and the direction it faced
/// before the pip.
pub open spec fn pip_start(g: GameState) -> (Player, Result<Option<Seq<Turn>>, RuleError>, Direction) {
    let p = g.players@[g.player_index as int];
    match g.awaiting {
        Some(a) => (p, Ok(Some(a.0@)), a.1),
        None => {
            let o = pre_step_outcome(p, g.map.tiles@, g.blockages@, g.choice_tile_selections@);
            (o.0, o.1, p.direction)
        },
    }
}

/// The game after the current player changed gear and rolled.
pub open spec fn rolled(old: GameState, new: GameState) -> bool {
    let i = old.player_index as int;
    let p = old.players@[i];
    let q = new.players@[i];
    &&& new.map == old.map
    &&& new.player_strategies == old.player_strategies
    &&& new.shortest_dist_map == old.shortest_dist_map
    &&& new.blockages == old.blockages
    &&& new.choice_tile_selections == old.choice_tile_selections
    &&& new.awaiting == old.awaiting
    &&& new.player_index == old.player_index
    &&& !new.rolling
    &&& new.players@.len() == old.players@.len()
    &&& forall|j: int| 0 <= j < old.players@.len() && j != i ==> new.players@[j] == old.players@[j]
    &&& exists|c: ChangeGear|
        (p.stalled || p.forced_gear_down ==> c == ChangeGear::Stay) && q == (Player {
            roll: q.roll,
            steps: 0,
            ..#[trigger] gear_shifted(p, c)
        })
    &&& valid_roll(q.roll@, q.gear as int)
}

/// The game after one pip of the current player: the pip fails and nothing
/// changes, or it ends by itself, or the player is still to decide how to
/// steer, or it steers by some turn (straight on when too fast to steer);
/// then the bookkeeping that ends a pip follows.
pub open spec fn stepped_game(old: GameState, new: GameState, r: Result<bool, RuleError>) -> bool {
    let i = old.player_index as int;
    let start = pip_start(old);
    let q = start.0;
    let d0 = start.2;
    match start.1 {
        Err(e) => {
            &&& r == Err::<bool, RuleError>(e)
            &&& same_but_current(old, new)
            &&& new.players@ == old.players@
            &&& new.awaiting == old.awaiting
        },
        Ok(None) => r is Ok && settled(old, q, d0, new, r->Ok_0),
        Ok(Some(ts)) => {
            ||| {
                &&& r == Ok::<bool, RuleError>(false)
                &&& !crate::player::too_fast(q)
                &&& new.map == old.map
                &&& new.player_strategies == old.player_strategies
                &&& new.shortest_dist_map == old.shortest_dist_map
                &&& new.blockages == old.blockages
                &&& new.choice_tile_selections == old.choice_tile_selections
                &&& new.player_index == old.player_index
                &&& new.rolling == old.rolling
                &&& new.players@ == old.players@.update(i, q)
                &&& new.awaiting matches Some(a) && a.0@ == ts && a.1 == d0
            }
            ||| r is Ok && exists|t: Turn|
                (crate::player::too_fast(q) ==> t == Turn::Straight) && settled(
                    old,
                    #[trigger] after_turn(q, ts, old.map.tiles@[q.position], t),
                    d0,
                    new,
                    r->Ok_0,
                )
        },
    }
}

impl GameState {
    /// Whether the game is consistent: a current player among the players,
    /// one strategy pair each, a board within range, players consistent with
    /// it, and a current player that is moving has pips left.
    pub open spec fn wf(&self) -> bool {
        let i = self.player_index as int;
        let p = self.players@[i];
        &&& 0 <= i < self.players@.len()
        &&& self.player_strategies@.len() == self.players@.len()
        &&& forall|c: Coord| #[trigger] self.map.tiles@.contains_key(c) ==> within(c, COORD_BOUND as int)
        &&& forall|j: int|
            0 <= j < self.players@.len() ==> player_in_range(
                #[trigger] self.players@[j],
                self.map.tiles@,
            )
        &&& !self.rolling ==> {
            &&& !p.finished
            &&& valid_roll(p.roll@, p.gear as int)
            &&& p.steps < pips(p.roll@)
        }
        &&& self.awaiting is Some ==> !self.rolling && self.map.tiles@.contains_key(p.position)
    }

    /// A game on `map`, with one player per placement of its builder, the
    /// first player to roll, no choice made yet, and the directions toward
    /// the finish worked out.
    pub fn new(map: HexMap, player_strategies: Vec<(PlayerGearStrategy, PlayerStepStrategy)>) -> (g:
        GameState)
        requires
            board_in_range(map),
            forall|c: Coord| #[trigger] map.tiles@.contains_key(c) ==> within(c, COORD_BOUND as int),
            map.player_builder.index < map.player_builder.total <= map.player_builder.placements@.len(),
            player_strategies@.len() == map.player_builder.total - map.player_builder.index,
            forall|k: int|
                0 <= k < map.player_builder.placements@.len() ==> within(
                    #[trigger] map.player_builder.placements@[k].0,
                    COORD_BOUND as int,
                ),
        ensures
            g.wf(),
            g.player_index == 0,
            g.rolling,
            g.awaiting is None,
            g.choice_tile_selections@ == Map::<(Coord, int), Direction>::empty(),
            g.players@.len() == map.player_builder.total - map.player_builder.index,
            forall|k: int|
                0 <= k < g.players@.len() ==> fresh_player(
                    #[trigger] g.players@[k],
                    map.player_builder.placements@[map.player_builder.index + k].0,
                    map.player_builder.placements@[map.player_builder.index + k].1,
                ),
            forall|c: Coord| g.blockages@.contains(c) <==> blocked(g.players@, g.map.tiles@, c),
            g.map.tiles@ == map.tiles@,
            g.map.start_line@ == map.start_line@,
            g.map.mid_line@ == map.mid_line@,
            g.shortest_dist_map@.dom() == map.tiles@.dom(),
            forall|c: Coord, d: Direction|
                #![trigger g.shortest_dist_map@[c]@.contains(d)]
                g.shortest_dist_map@.contains_key(c) ==> (g.shortest_dist_map@[c]@.contains(d)
                    <==> crate::board::reaches_finish(map.tiles@, map.start_line@, (c, d))),
    {
        let ghost m0 = map;
        let mut map = map;
        let players = map.player_builder.all_players();
        let blockages = blocked_cells(&players, &map.tiles);
        let shortest_dist_map = map.shortest_path();
        let g = GameState {
            map,
            players,
            player_strategies,
            player_index: 0,
            rolling: true,
            blockages,
            shortest_dist_map,
            choice_tile_selections: ChoiceMemory::new(),
            awaiting: None,
        };
        assert forall|j: int| 0 <= j < g.players@.len() implies player_in_range(
            #[trigger] g.players@[j],
            g.map.tiles@,
        ) by {
            assert(fresh_player(
                g.players@[j],
                m0.player_builder.placements@[m0.player_builder.index + j].0,
                m0.player_builder.placements@[m0.player_builder.index + j].1,
            ));
        }
        g
    }

    /// The cells that the players block now.
    pub fn update_gameboard(&self) -> (r: Vec<Coord>)
        ensures
            forall|c: Coord| r@.contains(c) <==> blocked(self.players@, self.map.tiles@, c),
    {
        blocked_cells(&self.players, &self.map.tiles)
    }
}

/// Whether leaving `from` for `to` facing `d` crosses `line`.
fn line_crossed(line: &Vec<(Coord, Vec<Direction>)>, from: Coord, to: Coord, d: Direction) -> (r:
    bool)
    ensures
        r == (to != from && exists|k: int|
            0 <= k < line@.len() && #[trigger] line@[k].0 == from && line@[k].1@.contains(d)),
{
    if to == from {
        return false;
    }
    let mut k: usize = 0;
    while k < line.len()
        invariant
            k <= line@.len(),
            to != from,
            forall|j: int| 0 <= j < k ==> !(#[trigger] line@[j].0 == from && line@[j].1@.contains(d)),
        decreases line.len() - k,
    {
        if line[k].0 == from && direction_listed(&line[k].1, d) {
            assert(line@[k as int].0 == from && line@[k as int].1@.contains(d));
            return true;
        }
        k = k + 1;
    }
    false
}

/// Counts the half laps and laps that a pip completes.
fn count_lap(
    p: &mut Player,
    mid: &Vec<(Coord, Vec<Direction>)>,
    start: &Vec<(Coord, Vec<Direction>)>,
    d0: Direction,
)
    requires
        old(p).round < usize::MAX,
    ensures
        *final(p) == lap_after(*old(p), mid@, start@, d0),
{
    if p.first_half {
        if line_crossed(mid, p.old_position, p.position, d0) {
            p.first_half = false;
        }
    } else if line_crossed(start, p.old_position, p.position, d0) {
        p.round = p.round + 1;
        p.first_half = true;
    }
}

/// Ending a move on a speed zone forces a gear down at the next roll.
fn speed_zone_penalty(p: &mut Player, tiles: &CoordMap<Tile>)
    ensures
        *final(p) == finish_after(*old(p), tiles@),
{
    if p.finished {
        match tiles.get(p.position) {
            Some(t) => {
                if t.blue {
                    p.forced_gear_down = true;
                }
            },
            None => {},
        }
    }
}

/// Steers player `i` of `players` on its tile.
fn steer<S: StepStrategy>(
    players: &mut Vec<Player>,
    i: usize,
    turns: &Vec<Turn>,
    tiles: &CoordMap<Tile>,
    strategy: &mut S,
) -> (r: Result<bool, RuleError>)
    requires
        i < old(players)@.len(),
        old(players)@[i as int].steps < u8::MAX,
        tiles@.contains_key(old(players)@[i as int].position),
    ensures
        final(players)@.len() == old(players)@.len(),
        forall|j: int| 0 <= j < old(players)@.len() && j != i ==> final(players)@[j] == old(players)@[j],
        ({
            let p = old(players)@[i as int];
            match r {
                Ok(true) => exists|t: Turn|
                    (crate::player::too_fast(p) ==> t == Turn::Straight) && final(players)@[i as int]
                        == #[trigger] after_turn(p, turns@, tiles@[p.position], t),
                Ok(false) => !crate::player::too_fast(p) && final(players)@[i as int] == p,
                Err(_) => false,
            }
        }),
{
    players[i].step(turns, tiles, strategy)
}

impl GameState {
    /// The bookkeeping that ends a pip of the current player, who faced `d0`
    /// before it. Returns whether the player's move is over.
    pub fn settle_pip(&mut self, d0: Direction) -> (r: bool)
        requires
            old(self).player_index < old(self).players@.len(),
            old(self).players@[old(self).player_index as int].round < usize::MAX,
        ensures
            settled(*old(self), old(self).players@[old(self).player_index as int], d0, *final(self), r),
    {
        let i = self.player_index;
        let ghost mover = self.players@[i as int];
        let old_pos = self.players[i].old_position;
        let round = self.players[i].round;
        match self.map.tiles.get(old_pos) {
            Some(tile) => {
                if tile.choice && direction_listed(&tile.directions, d0) {
                    self.choice_tile_selections.record(old_pos, round, d0);
                }
            },
            None => {},
        }
        count_lap(&mut self.players[i], &self.map.mid_line, &self.map.start_line, d0);
        let finished = self.players[i].finished;
        if finished {
            speed_zone_penalty(&mut self.players[i], &self.map.tiles);
            self.rolling = true;
            let n = self.players.len();
            self.player_index = (i + 1) % n;
            self.blockages = self.update_gameboard();
        }
        self.awaiting = None;
        assert(self.players@ =~= old(self).players@.update(
            i as int,
            finish_after(
                lap_after(mover, old(self).map.mid_line@, old(self).map.start_line@, d0),
                old(self).map.tiles@,
            ),
        ));
        finished
    }
}

/// Whether `new` differs from `old` at most in the current player and in
/// the decision being awaited.
pub open spec fn same_but_current(old: GameState, new: GameState) -> bool {
    &&& new.map == old.map
    &&& new.player_strategies == old.player_strategies
    &&& new.shortest_dist_map == old.shortest_dist_map
    &&& new.blockages == old.blockages
    &&& new.choice_tile_selections == old.choice_tile_selections
    &&& new.player_index == old.player_index
    &&& new.rolling == old.rolling
    &&& new.players@.len() == old.players@.len()
    &&& forall|j: int|
        0 <= j < old.players@.len() && j != old.player_index ==> new.players@[j] == old.players@[j]
}

/// Whether player `mover`, the current player after the move of a pip, can be
/// settled into a consistent game.
pub open spec fn settles_well(old: GameState, mover: Player) -> bool {
    &&& player_in_range(mover, old.map.tiles@)
    &&& !mover.finished ==> valid_roll(mover.roll@, mover.gear as int) && mover.steps < pips(mover.roll@)
}

proof fn lemma_settled_wf(old: GameState, mover: Player, d0: Direction, new: GameState, r: bool)
    requires
        old.wf(),
        !old.rolling,
        settles_well(old, mover),
        settled(old, mover, d0, new, r),
    ensures
        new.wf(),
{
    let i = old.player_index as int;
    assert forall|j: int| 0 <= j < new.players@.len() implies player_in_range(
        #[trigger] new.players@[j],
        new.map.tiles@,
    ) by {
        if j != i {
            assert(new.players@[j] == old.players@[j]);
        }
    }
}

impl GameState {
    /// The move of one pip of the current player, up to the bookkeeping:
    /// returns the direction faced before the pip when the pip is over,
    /// `None` while the player is still to decide how to steer.
    #[verifier::rlimit(50)]
    fn move_current<S: StepStrategy>(&mut self, manual_step: &mut S) -> (r: Result<
        Option<Direction>,
        RuleError,
    >)
        requires
            old(self).wf(),
            !old(self).rolling,
        ensures
            r is Err ==> {
                &&& pip_start(*old(self)).1 == Err::<Option<Seq<Turn>>, RuleError>(r->Err_0)
                &&& same_but_current(*old(self), *final(self))
                &&& final(self).players@ == old(self).players@
                &&& final(self).awaiting == old(self).awaiting
            },
            r == Ok::<Option<Direction>, RuleError>(None) ==> {
                &&& final(self).wf()
                &&& pip_start(*old(self)).1 matches Ok(Some(ts))
                &&& !crate::player::too_fast(pip_start(*old(self)).0)
                &&& same_but_current(*old(self), *final(self))
                &&& final(self).players@ == old(self).players@.update(
                    old(self).player_index as int,
                    pip_start(*old(self)).0,
                )
                &&& final(self).awaiting matches Some(a) && pip_start(*old(self)).1 == Ok::<
                    Option<Seq<Turn>>,
                    RuleError,
                >(Some(a.0@)) && a.1 == pip_start(*old(self)).2
            },
            r matches Ok(Some(d0)) ==> {
                &&& d0 == pip_start(*old(self)).2
                &&& same_but_current(*old(self), *final(self))
                &&& settles_well(*old(self), final(self).players@[old(self).player_index as int])
            },
            r matches Ok(Some(d0)) ==> match pip_start(*old(self)).1 {
                Ok(None) => final(self).players@[old(self).player_index as int] == pip_start(
                    *old(self),
                ).0,
                Ok(Some(ts)) => exists|t: Turn|
                    (crate::player::too_fast(pip_start(*old(self)).0) ==> t == Turn::Straight)
                        && final(self).players@[old(self).player_index as int]
                        == #[trigger] after_turn(
                        pip_start(*old(self)).0,
                        ts,
                        old(self).map.tiles@[pip_start(*old(self)).0.position],
                        t,
                    ),
                Err(_) => false,
            },
    {
        let i = self.player_index;
        let ghost g0 = *self;
        proof {
            let p = self.players@[i as int];
            lemma_roll_bounds(p.roll@, p.gear as int);
        }
        let (_, step_strategy) = self.player_strategies[i];
        match &self.awaiting {
            Some(a) => {
                let d0 = a.1;
                let ghost q = self.players@[i as int];
                let res = match step_strategy {
                    PlayerStepStrategy::Best => {
                        let mut best = BestStepStategy {
                            blockages: &self.blockages,
                            shortest_dist_map: &self.shortest_dist_map,
                        };
                        steer(&mut self.players, i, &a.0, &self.map.tiles, &mut best)
                    },
                    PlayerStepStrategy::Manual => steer(
                        &mut self.players,
                        i,
                        &a.0,
                        &self.map.tiles,
                        manual_step,
                    ),
                };
                match res {
                    Err(e) => Err(e),
                    Ok(false) => {
                        assert(self.players@ =~= g0.players@);
                        assert(g0.players@.update(i as int, g0.players@[i as int]) =~= g0.players@);
                        Ok(None)
                    },
                    Ok(true) => {
                        self.awaiting = None;
                        proof {
                            let t = choose|t: Turn|
                                (crate::player::too_fast(q) ==> t == Turn::Straight)
                                    && self.players@[i as int] == #[trigger] after_turn(
                                    q,
                                    a.0@,
                                    g0.map.tiles@[q.position],
                                    t,
                                );
                            assert(match pip_start(g0).1 {
                                Ok(None) => false,
                                Ok(Some(ts)) => exists|t: Turn|
                                    (crate::player::too_fast(pip_start(g0).0) ==> t == Turn::Straight)
                                        && self.players@[i as int] == #[trigger] after_turn(
                                        pip_start(g0).0,
                                        ts,
                                        g0.map.tiles@[pip_start(g0).0.position],
                                        t,
                                    ),
                                Err(_) => false,
                            });
                        }
                        Ok(Some(d0))
                    },
                }
            },
            None => {
                let d0 = self.players[i].direction;
                let pre = self.players[i].pre_step(
                    &self.map.tiles,
                    &self.blockages,
                    &self.choice_tile_selections,
                );
                match pre {
                    Err(e) => {
                        assert(self.players@ =~= g0.players@);
                        Err(e)
                    },
                    Ok(None) => Ok(Some(d0)),
                    Ok(Some(turns)) => {
                        let ghost q = self.players@[i as int];
                        let res = match step_strategy {
                            PlayerStepStrategy::Best => {
                                let mut best = BestStepStategy {
                                    blockages: &self.blockages,
                                    shortest_dist_map: &self.shortest_dist_map,
                                };
                                steer(&mut self.players, i, &turns, &self.map.tiles, &mut best)
                            },
                            PlayerStepStrategy::Manual => steer(
                                &mut self.players,
                                i,
                                &turns,
                                &self.map.tiles,
                                manual_step,
                            ),
                        };
                        match res {
                            Err(e) => Err(e),
                            Ok(false) => {
                                self.awaiting = Some((turns, d0));
                                assert(self.players@ =~= g0.players@.update(
                                    i as int,
                                    self.players@[i as int],
                                ));
                                assert forall|j: int| 0 <= j < self.players@.len() implies player_in_range(
                                    #[trigger] self.players@[j],
                                    self.map.tiles@,
                                ) by {
                                    if j != i {
                                        assert(self.players@[j] == g0.players@[j]);
                                    }
                                }
                                Ok(None)
                            },
                            Ok(true) => {
                                proof {
                                    let t = choose|t: Turn|
                                        (crate::player::too_fast(q) ==> t == Turn::Straight)
                                            && self.players@[i as int] == #[trigger] after_turn(
                                            q,
                                            turns@,
                                            g0.map.tiles@[q.position],
                                            t,
                                        );
                                    assert(self.players@[i as int] == after_turn(
                                        pip_start(g0).0,
                                        turns@,
                                        g0.map.tiles@[pip_start(g0).0.position],
                                        t,
                                    ));
                                }
                                Ok(Some(d0))
                            },
                        }
                    },
                }
            },
        }
    }

    /// One step of the game: the current player rolls if it is to roll,
    /// else it moves one pip. Best strategies decide for players set to
    /// `Best`; `manual_gear` and `manual_step` decide for the others. Returns
    /// whether the current player's move is over.
    pub fn step_game<G: GearStrategy, S: StepStrategy>(
        &mut self,
        manual_gear: &mut G,
        manual_step: &mut S,
    ) -> (r: Result<bool, RuleError>)
        requires
            old(self).wf(),
            old(self).players@[old(self).player_index as int].round < usize::MAX,
        ensures
            final(self).wf(),
            old(self).rolling ==> r == Ok::<bool, RuleError>(false) && rolled(*old(self), *final(self)),
            !old(self).rolling ==> stepped_game(*old(self), *final(self), r),
    {
        let i = self.player_index;
        let ghost g0 = *self;
        if self.rolling {
            let (gear_strategy, _) = self.player_strategies[i];
            match gear_strategy {
                PlayerGearStrategy::Best => {
                    let mut best = BestGearStrategy {};
                    self.players[i].roll_dice(&mut best);
                },
                PlayerGearStrategy::Manual => {
                    self.players[i].roll_dice(manual_gear);
                },
            }
            self.rolling = false;
            proof {
                let q = self.players@[i as int];
                lemma_roll_bounds(q.roll@, q.gear as int);
                assert(player_in_range(q, self.map.tiles@));
                assert forall|j: int| 0 <= j < self.players@.len() implies player_in_range(
                    #[trigger] self.players@[j],
                    self.map.tiles@,
                ) by {
                    if j != i {
                        assert(self.players@[j] == g0.players@[j]);
                    }
                }
            }
            return Ok(false);
        }
        match self.move_current(manual_step) {
            Err(e) => Err(e),
            Ok(None) => Ok(false),
            Ok(Some(d0)) => {
                let ghost g1 = *self;
                let ghost mover = self.players@[i as int];
                let done = self.settle_pip(d0);
                proof {
                    assert(g1.players@.update(i as int, mover) =~= g1.players@);
                    assert forall|after: Player| g1.players@.update(i as int, after) == g0.players@.update(i as int, after) by {
                        assert(g1.players@.update(i as int, after) =~= g0.players@.update(i as int, after));
                    }
                    assert(settled(g0, mover, d0, *self, done));
                    lemma_settled_wf(g0, mover, d0, *self, done);
                }
                Ok(done)
            },
        }
    }
}

} // verus!
