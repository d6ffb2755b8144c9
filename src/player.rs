//! A player's state and the rules of one move: the gear and dice roll, then one
//! pip at a time, the advance, collisions, leaving and re-entering the track,
//! and the steering decision.
use vstd::prelude::*;
use crate::chance::pick;
use crate::geometry::{
    ChangeGear, Coord, Direction, RuleError, Turn, MIN_GEAR, gear_after, steppable, stepped,
    turn_between, turned,
};
use crate::tile::{ChoiceMemory, CoordMap, Tile, has_forced};

verus! {

pub struct GeneralError {}

pub struct TechnicalError {}

/// Tallies kept of a player's mishaps over a game.
pub struct Sips {
    pub start_last: bool,
    pub end_first: bool,
    pub whines: u8,
    pub remaining_steps: u8,
    pub fell_out: bool,
    pub back_on: bool,
    pub ones: u8,
}

impl Default for Sips {
    fn default() -> (s: Sips)
        ensures
            !s.start_last && !s.end_first && !s.fell_out && !s.back_on,
            s.whines == 0 && s.remaining_steps == 0 && s.ones == 0,
    {
        Sips {
            start_last: false,
            end_first: false,
            whines: 0,
            remaining_steps: 0,
            fell_out: false,
            back_on: false,
            ones: 0,
        }
    }
}

/// One racer: where it is, where it came from, where it faces, its gear and
/// roll, and the flags that carry rules from one pip or move to the next.
pub struct Player {
    pub position: Coord,
    pub old_position: Coord,
    pub direction: Direction,
    /// Off the track, to re-enter at `old_position` on the next pip.
    pub outside_board: bool,
    /// Will leave the track on the next pip.
    pub next_falls_off: bool,
    /// Must change gear down at the next roll.
    pub forced_gear_down: bool,
    pub gear: u8,
    /// One die face per gear.
    pub roll: Vec<u8>,
    /// Pips of the roll used so far.
    pub steps: u8,
    /// Restarts in the lowest gear at the next roll.
    pub stalled: bool,
    pub bonked: bool,
    pub finished: bool,
    /// The lap being driven, from 1.
    pub round: usize,
    /// Whether the mid line of this lap is still ahead.
    pub first_half: bool,
}

/// A decision on how to steer, asked once per pip; `None` means that no
/// decision has been made yet.
pub trait StepStrategy {
    fn step_strategy(&mut self, player: &Player, turns: &Vec<Turn>, tile: &Tile) -> Option<Turn>;
}

/// A decision on how to change gear, asked once per roll.
pub trait GearStrategy {
    fn gear_strategy(&mut self, player: &Player) -> ChangeGear;
}

/// Above this many pips a player is too fast to steer.
pub const STEER_LIMIT: u16 = 9;

/// The number of faces of a die.
pub const DIE_FACES: u8 = 4;

/// The sum of the faces of a roll.
pub open spec fn pips(roll: Seq<u8>) -> int
    decreases roll.len(),
{
    if roll.len() == 0 {
        0
    } else {
        pips(roll.drop_last()) + roll.last()
    }
}

/// Whether the player's roll is too high to steer.
pub open spec fn too_fast(p: Player) -> bool {
    pips(p.roll@) > STEER_LIMIT
}

/// The turns from `facing` that reach one of `exits`, in the order of the
/// exits; only `Straight` when too fast to steer.
pub open spec fn turns_toward(facing: Direction, exits: Seq<Direction>, fast: bool) -> Seq<Turn>
    decreases exits.len(),
{
    if exits.len() == 0 {
        Seq::empty()
    } else {
        let rest = turns_toward(facing, exits.drop_last(), fast);
        match turn_between(facing, exits.last()) {
            Some(t) => if !fast || t == Turn::Straight {
                rest.push(t)
            } else {
                rest
            },
            None => rest,
        }
    }
}

/// The exits of `tile` for a player arriving from `entry`: the forced exit for
/// that entry, else the direction chosen at this fork in this round, else the
/// tile's own exits.
pub open spec fn effective_exits(tile: Tile, entry: Coord, chosen: Option<Direction>) -> Seq<
    Direction,
> {
    if tile.forced@.contains_key(entry) {
        seq![tile.forced@[entry]]
    } else if tile.choice && chosen is Some {
        seq![chosen->Some_0]
    } else {
        tile.directions@
    }
}

/// The turns a player standing on `tile` may take.
pub open spec fn legal_turns(p: Player, tile: Tile, chosen: Option<Direction>) -> Seq<Turn> {
    turns_toward(p.direction, effective_exits(tile, p.old_position, chosen), too_fast(p))
}

/// The player moved one cell ahead.
pub open spec fn advanced(p: Player) -> Player {
    Player { old_position: p.position, position: stepped(p.position, p.direction), ..p }
}

/// The player thrown off the track, one cell ahead; the move ends.
pub open spec fn thrown_off(p: Player) -> Player {
    Player { outside_board: true, finished: true, stalled: true, next_falls_off: false, ..advanced(p) }
}

/// The player sent back to where it stood after running into a blockage.
pub open spec fn bonked_back(p: Player) -> Player {
    Player { position: p.position, old_position: p.position, finished: true, bonked: true, ..p }
}

/// The direction a player takes when coming back onto the track at `pos`.
pub open spec fn reentry_direction(
    tiles: Map<Coord, Tile>,
    choices: Map<(Coord, int), Direction>,
    pos: Coord,
    round: int,
) -> Option<Direction> {
    if !tiles.contains_key(pos) {
        None
    } else if tiles[pos].choice && choices.contains_key((pos, round)) {
        Some(choices[(pos, round)])
    } else if tiles[pos].directions@.len() > 0 {
        Some(tiles[pos].directions@[0])
    } else {
        None
    }
}

/// The first half of a pip for player `p`: the player afterwards, and the
/// turns open to it if it still has to steer (`None` when the pip is over).
/// A fall that is due throws the player off one cell ahead; a player off the
/// track comes back where it left it; otherwise it moves one cell ahead, is
/// sent back by a blockage, or runs off the track.
pub open spec fn pre_step_outcome(
    p: Player,
    tiles: Map<Coord, Tile>,
    blockages: Seq<Coord>,
    choices: Map<(Coord, int), Direction>,
) -> (Player, Result<Option<Seq<Turn>>, RuleError>) {
    if p.next_falls_off {
        (thrown_off(p), Ok(None))
    } else if p.outside_board {
        match reentry_direction(tiles, choices, p.old_position, p.round as int) {
            Some(d) => (
                Player { position: p.old_position, outside_board: false, direction: d, ..p },
                Ok(None),
            ),
            None => (p, Err(RuleError::MissingTileData)),
        }
    } else {
        let a = advanced(p);
        if blockages.contains(a.position) {
            (bonked_back(p), Ok(None))
        } else if !tiles.contains_key(a.position) {
            (Player { outside_board: true, finished: true, stalled: true, ..a }, Ok(None))
        } else {
            (
                a,
                Ok(Some(legal_turns(a, tiles[a.position], choices.get((a.position, a.round as int))))),
            )
        }
    }
}

/// The result of a first half of a pip, with the turns as a sequence.
pub open spec fn outcome_view(r: Result<Option<Vec<Turn>>, RuleError>) -> Result<
    Option<Seq<Turn>>,
    RuleError,
> {
    match r {
        Ok(Some(v)) => Ok(Some(v@)),
        Ok(None) => Ok(None),
        Err(e) => Err(e),
    }
}

/// The turn a player takes when asking for `requested`: on a tile with forced
/// exits, or when too fast, a turn that is not allowed is replaced by the first
/// allowed one (`Straight` if none is).
pub open spec fn resolved_turn(p: Player, turns: Seq<Turn>, tile: Tile, requested: Turn) -> Turn {
    if (has_forced(tile) || too_fast(p)) && !turns.contains(requested) {
        if turns.len() == 0 {
            Turn::Straight
        } else {
            turns[0]
        }
    } else {
        requested
    }
}

/// Whether the steering decision throws the player off on the next pip: a
/// wrong pick at a fork, no allowed turn where one is enforced, or an exit
/// that the tile blocks.
pub open spec fn ejects(p: Player, turns: Seq<Turn>, tile: Tile, requested: Turn) -> bool {
    ||| tile.choice && !turns.contains(requested)
    ||| (has_forced(tile) || too_fast(p)) && !turns.contains(requested) && turns.len() == 0
    ||| tile.blockage@.contains(turned(p.direction, resolved_turn(p, turns, tile, requested)))
}

/// The player after steering on `tile` with the decision `requested`.
pub open spec fn after_turn(p: Player, turns: Seq<Turn>, tile: Tile, requested: Turn) -> Player {
    Player {
        direction: turned(p.direction, resolved_turn(p, turns, tile, requested)),
        steps: (p.steps + 1) as u8,
        next_falls_off: p.next_falls_off || ejects(p, turns, tile, requested),
        finished: p.finished || p.steps + 1 == pips(p.roll@),
        ..p
    }
}

/// The player after the gear change that precedes a roll: the lowest gear
/// after a stall, one gear down after a speed zone, else the requested change.
pub open spec fn gear_shifted(p: Player, requested: ChangeGear) -> Player {
    if p.stalled {
        Player { gear: MIN_GEAR, stalled: false, finished: false, ..p }
    } else if p.forced_gear_down {
        Player {
            gear: gear_after(ChangeGear::Down, p.gear as int) as u8,
            forced_gear_down: false,
            finished: false,
            ..p
        }
    } else {
        Player { gear: gear_after(requested, p.gear as int) as u8, finished: false, ..p }
    }
}

/// A roll of `gear` dice adds up to at least `gear` and at most four times
/// `gear` pips.
pub proof fn lemma_roll_bounds(roll: Seq<u8>, gear: int)
    requires
        valid_roll(roll, gear),
    ensures
        gear <= pips(roll) <= DIE_FACES * gear,
    decreases roll.len(),
{
    if roll.len() > 0 {
        lemma_roll_bounds(roll.drop_last(), gear - 1);
    }
}

/// Whether `roll` holds `gear` faces of a die.
pub open spec fn valid_roll(roll: Seq<u8>, gear: int) -> bool {
    &&& roll.len() == gear
    &&& forall|i: int| 0 <= i < roll.len() ==> 1 <= #[trigger] roll[i] <= DIE_FACES
}

pub(crate) fn coord_listed(v: &Vec<Coord>, c: Coord) -> (r: bool)
    ensures
        r == v@.contains(c),
{
    let mut i: usize = 0;
    while i < v.len()
        invariant
            i <= v.len(),
            forall|j: int| 0 <= j < i ==> v@[j] != c,
        decreases v.len() - i,
    {
        if v[i] == c {
            return true;
        }
        i = i + 1;
    }
    false
}

pub(crate) fn turn_listed(v: &Vec<Turn>, t: Turn) -> (r: bool)
    ensures
        r == v@.contains(t),
{
    let mut i: usize = 0;
    while i < v.len()
        invariant
            i <= v.len(),
            forall|j: int| 0 <= j < i ==> v@[j] != t,
        decreases v.len() - i,
    {
        if v[i] == t {
            return true;
        }
        i = i + 1;
    }
    false
}

pub(crate) fn direction_listed(v: &Vec<Direction>, d: Direction) -> (r: bool)
    ensures
        r == v@.contains(d),
{
    let mut i: usize = 0;
    while i < v.len()
        invariant
            i <= v.len(),
            forall|j: int| 0 <= j < i ==> v@[j] != d,
        decreases v.len() - i,
    {
        if v[i] == d {
            return true;
        }
        i = i + 1;
    }
    false
}

/// The turns from `facing` that reach one of `exits`.
pub(crate) fn turns_to_exits(facing: Direction, exits: &Vec<Direction>, fast: bool) -> (r: Vec<Turn>)
    ensures
        r@ == turns_toward(facing, exits@, fast),
{
    let mut r: Vec<Turn> = Vec::new();
    let mut i: usize = 0;
    assert(exits@.subrange(0, 0) =~= Seq::<Direction>::empty());
    while i < exits.len()
        invariant
            i <= exits.len(),
            r@ == turns_toward(facing, exits@.subrange(0, i as int), fast),
        decreases exits.len() - i,
    {
        let ghost before = exits@.subrange(0, i as int);
        assert(exits@.subrange(0, i + 1).drop_last() =~= before);
        match facing.turn_to_dir(exits[i]) {
            Some(t) => {
                if !fast || t == Turn::Straight {
                    r.push(t);
                }
            },
            None => {},
        }
        i = i + 1;
    }
    assert(exits@.subrange(0, exits@.len() as int) =~= exits@);
    r
}

/// Faces of a die, drawn at random, one per gear.
fn throw_dice(count: u8) -> (roll: Vec<u8>)
    ensures
        valid_roll(roll@, count as int),
{
    let mut faces: Vec<u8> = Vec::new();
    let mut f: u8 = 1;
    while f <= DIE_FACES
        invariant
            1 <= f <= DIE_FACES + 1,
            faces@.len() == f - 1,
            forall|i: int| 0 <= i < faces@.len() ==> 1 <= #[trigger] faces@[i] <= DIE_FACES,
        decreases DIE_FACES + 1 - f,
    {
        faces.push(f);
        f = f + 1;
    }
    let mut roll: Vec<u8> = Vec::new();
    let mut k: u8 = 0;
    while k < count
        invariant
            k <= count,
            faces@.len() == DIE_FACES,
            forall|i: int| 0 <= i < faces@.len() ==> 1 <= #[trigger] faces@[i] <= DIE_FACES,
            valid_roll(roll@, k as int),
        decreases count - k,
    {
        let face = pick(&faces);
        roll.push(face);
        k = k + 1;
    }
    roll
}

impl Player {
    /// The sum of the roll, counted up to 256: any sum above 255 reads as 256.
    pub fn pip_total(&self) -> (t: u16)
        ensures
            t == if pips(self.roll@) <= 255 { pips(self.roll@) } else { 256 },
    {
        let ghost s = self.roll@;
        let mut sum: u16 = 0;
        let mut i: usize = 0;
        assert(s.subrange(0, 0) =~= Seq::<u8>::empty());
        while i < self.roll.len()
            invariant
                i <= s.len(),
                s == self.roll@,
                sum <= 510,
                pips(s.subrange(0, i as int)) <= 255 ==> sum == pips(s.subrange(0, i as int)),
                pips(s.subrange(0, i as int)) > 255 ==> sum > 255,
            decreases s.len() - i,
        {
            assert(s.subrange(0, i + 1).drop_last() =~= s.subrange(0, i as int));
            if sum <= 255 {
                sum = sum + self.roll[i] as u16;
            }
            i = i + 1;
        }
        assert(s.subrange(0, s.len() as int) =~= s);
        if sum > 255 {
            256
        } else {
            sum
        }
    }

    /// Whether the roll is too high to steer.
    pub fn is_too_fast(&self) -> (r: bool)
        ensures
            r == too_fast(*self),
    {
        self.pip_total() > STEER_LIMIT
    }

    /// The turns the player may take from where it stands.
    pub fn step_possibilities(&self, tiles: &CoordMap<Tile>, choices: &ChoiceMemory) -> (r: Vec<
        Turn,
    >)
        ensures
            !tiles@.contains_key(self.position) ==> r@ == seq![Turn::Straight],
            tiles@.contains_key(self.position) ==> r@ == legal_turns(
                *self,
                tiles@[self.position],
                choices@.get((self.position, self.round as int)),
            ),
    {
        match tiles.get(self.position) {
            None => {
                let mut r: Vec<Turn> = Vec::new();
                r.push(Turn::Straight);
                r
            },
            Some(tile) => {
                let chosen = choices.get(self.position, self.round);
                let fast = self.is_too_fast();
                match tile.forced.get(self.old_position) {
                    Some(d) => {
                        let mut exits: Vec<Direction> = Vec::new();
                        exits.push(*d);
                        assert(exits@ =~= seq![*d]);
                        turns_to_exits(self.direction, &exits, fast)
                    },
                    None => {
                        if tile.choice && chosen.is_some() {
                            let mut exits: Vec<Direction> = Vec::new();
                            exits.push(chosen.unwrap());
                            assert(exits@ =~= seq![chosen.unwrap()]);
                            turns_to_exits(self.direction, &exits, fast)
                        } else {
                            turns_to_exits(self.direction, &tile.directions, fast)
                        }
                    },
                }
            },
        }
    }

    /// The first half of a pip: leave the track if a fall is due, come back onto
    /// it after a fall, or move one cell ahead, then settle a collision or a run
    /// off the track. Returns the turns open to the player when it still has
    /// to steer, and `None` when the pip is over.
    pub fn pre_step(
        &mut self,
        tiles: &CoordMap<Tile>,
        blockages: &Vec<Coord>,
        choices: &ChoiceMemory,
    ) -> (r: Result<Option<Vec<Turn>>, RuleError>)
        requires
            steppable(old(self).position),
        ensures
            pre_step_outcome(*old(self), tiles@, blockages@, choices@) == (
                *final(self),
                outcome_view(r),
            ),
    {
        if self.next_falls_off {
            self.old_position = self.position;
            self.position = self.position.step(self.direction);
            self.outside_board = true;
            self.finished = true;
            self.stalled = true;
            self.next_falls_off = false;
            return Ok(None);
        } else if self.outside_board {
            let pos = self.old_position;
            let d = match tiles.get(pos) {
                None => {
                    return Err(RuleError::MissingTileData);
                },
                Some(tile) => {
                    let chosen = choices.get(pos, self.round);
                    if tile.choice && chosen.is_some() {
                        chosen.unwrap()
                    } else if tile.directions.len() > 0 {
                        tile.directions[0]
                    } else {
                        return Err(RuleError::MissingTileData);
                    }
                },
            };
            self.outside_board = false;
            self.position = pos;
            self.old_position = pos;
            self.direction = d;
            return Ok(None);
        }
        let from = self.position;
        self.old_position = from;
        self.position = from.step(self.direction);
        if coord_listed(blockages, self.position) {
            self.position = from;
            self.finished = true;
            self.bonked = true;
            return Ok(None);
        }
        if !tiles.contains_key(self.position) {
            self.outside_board = true;
            self.finished = true;
            self.stalled = true;
            return Ok(None);
        }
        Ok(Some(self.step_possibilities(tiles, choices)))
    }

    /// The second half of a pip, for a player standing on `tile` that asks for
    /// `requested` among the allowed `turns`: steer, count the pip, and mark the
    /// move finished when the roll is used up.
    pub fn apply_turn(&mut self, turns: &Vec<Turn>, tile: &Tile, requested: Turn)
        requires
            old(self).steps < u8::MAX,
        ensures
            *final(self) == after_turn(*old(self), turns@, *tile, requested),
    {
        let ghost p = *self;
        let fast = self.is_too_fast();
        let allowed = turn_listed(turns, requested);
        let enforce = (!tile.forced.is_empty() || fast) && !allowed;
        let turn = if enforce {
            if turns.len() == 0 {
                Turn::Straight
            } else {
                turns[0]
            }
        } else {
            requested
        };
        assert(turn == resolved_turn(p, turns@, *tile, requested));
        let new_direction = self.direction + turn;
        let blocked = direction_listed(&tile.blockage, new_direction);
        let eject = (tile.choice && !allowed) || (enforce && turns.len() == 0) || blocked;
        assert(eject == ejects(p, turns@, *tile, requested));
        let done = self.steps as u16 + 1 == self.pip_total();
        assert(done == (p.steps + 1 == pips(p.roll@)));
        self.direction = new_direction;
        self.steps = self.steps + 1;
        if eject {
            self.next_falls_off = true;
        }
        if done {
            self.finished = true;
        }
    }

    /// The second half of a pip: ask `strategy` how to steer (unless too fast
    /// to steer, which means `Straight`) and steer. Returns `false`, with the
    /// player unchanged, while the strategy has not decided.
    pub fn step<S: StepStrategy>(
        &mut self,
        turns: &Vec<Turn>,
        tiles: &CoordMap<Tile>,
        strategy: &mut S,
    ) -> (r: Result<bool, RuleError>)
        requires
            old(self).steps < u8::MAX,
        ensures
            !tiles@.contains_key(old(self).position) ==> r == Err::<bool, RuleError>(
                RuleError::MissingTileData,
            ) && *final(self) == *old(self),
            tiles@.contains_key(old(self).position) ==> match r {
                Ok(true) => exists|t: Turn|
                    (too_fast(*old(self)) ==> t == Turn::Straight) && *final(self) == #[trigger] after_turn(
                        *old(self),
                        turns@,
                        tiles@[old(self).position],
                        t,
                    ),
                Ok(false) => !too_fast(*old(self)) && *final(self) == *old(self),
                Err(_) => false,
            },
    {
        let tile = match tiles.get(self.position) {
            None => {
                return Err(RuleError::MissingTileData);
            },
            Some(tile) => tile,
        };
        let requested = if self.is_too_fast() {
            Turn::Straight
        } else {
            match strategy.step_strategy(&*self, turns, tile) {
                None => {
                    return Ok(false);
                },
                Some(t) => t,
            }
        };
        self.apply_turn(turns, tile, requested);
        Ok(true)
    }

    /// The gear change before a roll, given the change the player asked for.
    pub fn shift_gear(&mut self, requested: ChangeGear)
        ensures
            *final(self) == gear_shifted(*old(self), requested),
    {
        self.finished = false;
        if self.stalled {
            self.gear = MIN_GEAR;
            self.stalled = false;
        } else if self.forced_gear_down {
            self.gear = ChangeGear::Down.update_gear(self.gear);
            self.forced_gear_down = false;
        } else {
            self.gear = requested.update_gear(self.gear);
        }
    }

    /// Starts a move: change gear (asking `strategy` unless a stall or a speed
    /// zone decides), roll one die per gear, and reset the pip count.
    pub fn roll_dice<G: GearStrategy>(&mut self, strategy: &mut G)
        ensures
            exists|c: ChangeGear|
                (old(self).stalled || old(self).forced_gear_down ==> c == ChangeGear::Stay)
                    && *final(self) == (Player {
                    roll: final(self).roll,
                    steps: 0,
                    ..#[trigger] gear_shifted(*old(self), c)
                }),
            valid_roll(final(self).roll@, final(self).gear as int),
    {
        let requested = if self.stalled || self.forced_gear_down {
            ChangeGear::Stay
        } else {
            strategy.gear_strategy(&*self)
        };
        self.shift_gear(requested);
        self.roll = throw_dice(self.gear);
        self.steps = 0;
    }

    pub fn dither() {
    }
}

/// The turns toward a single exit: none, or the one turn that reaches it.
proof fn lemma_turns_toward_one(facing: Direction, d: Direction, fast: bool)
    ensures
        turns_toward(facing, seq![d], fast) == if turn_between(facing, d) is Some && (!fast
            || turn_between(facing, d) == Some(Turn::Straight)) {
            seq![turn_between(facing, d)->Some_0]
        } else {
            Seq::<Turn>::empty()
        },
{
    assert(seq![d].drop_last() =~= Seq::<Direction>::empty());
    assert(seq![d].last() == d);
    assert(turns_toward(facing, Seq::<Direction>::empty(), fast) == Seq::<Turn>::empty());
    reveal_with_fuel(turns_toward, 2);
    assert(Seq::<Turn>::empty().push(turn_between(facing, d)->Some_0) =~= seq![
        turn_between(facing, d)->Some_0,
    ]);
}

proof fn lemma_fast_turns_straight(facing: Direction, exits: Seq<Direction>)
    ensures
        forall|i: int|
            0 <= i < turns_toward(facing, exits, true).len() ==> #[trigger] turns_toward(
                facing,
                exits,
                true,
            )[i] == Turn::Straight,
    decreases exits.len(),
{
    if exits.len() > 0 {
        lemma_fast_turns_straight(facing, exits.drop_last());
    }
}

/// On a tile whose forced exits name the cell the player arrived from, the
/// player leaves by that forced exit whatever turn it asks for, as long as a
/// single turn reaches that exit (straight ahead when too fast to steer).
pub proof fn lemma_forced_exit_taken(
    p: Player,
    tile: Tile,
    chosen: Option<Direction>,
    requested: Turn,
)
    requires
        tile.forced@.contains_key(p.old_position),
        turn_between(p.direction, tile.forced@[p.old_position]) is Some,
        too_fast(p) ==> p.direction == tile.forced@[p.old_position],
    ensures
        after_turn(p, legal_turns(p, tile, chosen), tile, requested).direction
            == tile.forced@[p.old_position],
{
    let f = tile.forced@[p.old_position];
    lemma_turns_toward_one(p.direction, f, too_fast(p));
    assert(tile.forced@.dom().contains(p.old_position));
    assert(has_forced(tile));
}

/// A player whose roll is too high to steer is offered only `Straight`, and
/// keeps its direction whatever turn it asks for.
pub proof fn lemma_too_fast_goes_straight(
    p: Player,
    tile: Tile,
    chosen: Option<Direction>,
    requested: Turn,
)
    requires
        too_fast(p),
    ensures
        forall|i: int|
            0 <= i < legal_turns(p, tile, chosen).len() ==> #[trigger] legal_turns(p, tile, chosen)[i]
                == Turn::Straight,
        after_turn(p, legal_turns(p, tile, chosen), tile, requested).direction == p.direction,
{
    let turns = legal_turns(p, tile, chosen);
    lemma_fast_turns_straight(p.direction, effective_exits(tile, p.old_position, chosen));
    if turns.contains(requested) {
        let i = choose|i: int| 0 <= i < turns.len() && turns[i] == requested;
        assert(turns[i] == Turn::Straight);
    } else if turns.len() > 0 {
        assert(turns[0] == Turn::Straight);
    }
}

/// A player whose next cell is blocked is sent back to the cell it stood on,
/// and its move ends.
pub proof fn lemma_blocked_cell_bonks(
    p: Player,
    tiles: Map<Coord, Tile>,
    blockages: Seq<Coord>,
    choices: Map<(Coord, int), Direction>,
)
    requires
        !p.next_falls_off,
        !p.outside_board,
        blockages.contains(stepped(p.position, p.direction)),
    ensures
        pre_step_outcome(p, tiles, blockages, choices).1 == Ok::<Option<Seq<Turn>>, RuleError>(None),
        pre_step_outcome(p, tiles, blockages, choices).0.position == p.position,
        pre_step_outcome(p, tiles, blockages, choices).0.bonked,
        pre_step_outcome(p, tiles, blockages, choices).0.finished,
{
}

/// A pip keeps the roll, in both its halves: a player too fast to steer at
/// one pip stays too fast for every pip of the move.
pub proof fn lemma_roll_kept(
    p: Player,
    tiles: Map<Coord, Tile>,
    blockages: Seq<Coord>,
    choices: Map<(Coord, int), Direction>,
    turns: Seq<Turn>,
    tile: Tile,
    requested: Turn,
)
    ensures
        pre_step_outcome(p, tiles, blockages, choices).0.roll == p.roll,
        after_turn(p, turns, tile, requested).roll == p.roll,
        too_fast(p) ==> too_fast(pre_step_outcome(p, tiles, blockages, choices).0),
        too_fast(p) ==> too_fast(after_turn(p, turns, tile, requested)),
{
}

/// At a fork where a direction is already recorded for the player's round
/// (and no forced exit applies), every turn offered leads to the recorded
/// direction: an offered turn makes the player follow it, and any other
/// request throws the player off the track on the next pip.
pub proof fn lemma_choice_replayed(
    p: Player,
    tile: Tile,
    memory: Map<(Coord, int), Direction>,
    requested: Turn,
)
    requires
        tile.choice,
        memory.contains_key((p.position, p.round as int)),
        !tile.forced@.contains_key(p.old_position),
    ensures
        ({
            let turns = legal_turns(p, tile, memory.get((p.position, p.round as int)));
            let d = memory[(p.position, p.round as int)];
            &&& forall|i: int| 0 <= i < turns.len() ==> turned(p.direction, #[trigger] turns[i]) == d
            &&& turns.contains(requested) ==> after_turn(p, turns, tile, requested).direction == d
            &&& !turns.contains(requested) ==> after_turn(p, turns, tile, requested).next_falls_off
        }),
{
    let d = memory[(p.position, p.round as int)];
    lemma_turns_toward_one(p.direction, d, too_fast(p));
    let turns = legal_turns(p, tile, memory.get((p.position, p.round as int)));
    if turns.contains(requested) {
        let i = choose|i: int| 0 <= i < turns.len() && turns[i] == requested;
        assert(turns[i] == requested);
    }
}

} // verus!
