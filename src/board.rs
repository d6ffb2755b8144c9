//! The board: tiles by cell, the start and mid lines, the starting grid, and
//! the search that tells, for each tile, which directions lead back to the
//! finish.
use vstd::prelude::*;
use crate::geometry::{Coord, Direction, Turn, dir_index, steppable, stepped_back, turned};
use crate::player::{Player, direction_listed};
use crate::tile::{CoordMap, Tile, last_index, lemma_last_index};

verus! {

/// Hands out players at the starting grid, one placement each.
pub struct PlayerBuilder {
    pub total: usize,
    pub index: usize,
    pub placements: Vec<(Coord, Direction)>,
}

/// Tiles by cell, with the start line (crossing it in one of its directions
/// completes a lap) and the mid line (crossing it completes half a lap).
pub struct HexMap {
    pub tiles: CoordMap<Tile>,
    pub start_line: Vec<(Coord, Vec<Direction>)>,
    pub mid_line: Vec<(Coord, Vec<Direction>)>,
    pub player_builder: PlayerBuilder,
}

/// A player waiting at `position` facing `direction`, before its first roll.
pub open spec fn fresh_player(p: Player, position: Coord, direction: Direction) -> bool {
    &&& p.position == position
    &&& p.old_position == position
    &&& p.direction == direction
    &&& !p.outside_board && !p.next_falls_off && !p.forced_gear_down
    &&& p.gear == 1
    &&& p.roll@ == Seq::<u8>::empty()
    &&& p.steps == 0
    &&& p.stalled
    &&& !p.bonked && !p.finished
    &&& p.round == 1
    &&& p.first_half
}

impl PlayerBuilder {
    pub fn new(total: usize, placements: Vec<(Coord, Direction)>) -> (b: PlayerBuilder)
        ensures
            b.total == total,
            b.index == 0,
            b.placements@ == placements@,
    {
        PlayerBuilder { index: 0, total, placements }
    }

    /// The player for the next placement.
    pub fn next_player(&mut self) -> (p: Player)
        requires
            old(self).index < old(self).placements@.len(),
        ensures
            final(self).index == old(self).index + 1,
            final(self).total == old(self).total,
            final(self).placements@ == old(self).placements@,
            fresh_player(
                p,
                old(self).placements@[old(self).index as int].0,
                old(self).placements@[old(self).index as int].1,
            ),
    {
        let count = self.placements.len();
        let (position, direction) = self.placements[self.index];
        self.index = self.index + 1;
        Player {
            position,
            old_position: position,
            direction,
            outside_board: false,
            gear: 1,
            stalled: true,
            roll: Vec::new(),
            steps: 0,
            bonked: false,
            finished: false,
            forced_gear_down: false,
            next_falls_off: false,
            round: 1,
            first_half: true,
        }
    }

    /// The players for all placements not handed out yet, up to `total`.
    pub fn all_players(&mut self) -> (ps: Vec<Player>)
        requires
            old(self).total <= old(self).placements@.len(),
        ensures
            old(self).index < old(self).total ==> ps@.len() == old(self).total - old(self).index
                && final(self).index == old(self).total,
            old(self).index >= old(self).total ==> ps@.len() == 0 && final(self).index == old(
                self,
            ).index,
            forall|k: int|
                0 <= k < ps@.len() ==> fresh_player(
                    #[trigger] ps@[k],
                    old(self).placements@[old(self).index + k].0,
                    old(self).placements@[old(self).index + k].1,
                ),
            final(self).total == old(self).total,
            final(self).placements@ == old(self).placements@,
    {
        let mut ps: Vec<Player> = Vec::new();
        let start = self.index;
        while self.index < self.total
            invariant
                self.total == old(self).total,
                self.placements@ == old(self).placements@,
                self.total <= self.placements@.len(),
                start == old(self).index,
                self.index >= start,
                start >= self.total ==> self.index == start,
                start < self.total ==> self.index <= self.total,
                ps@.len() == self.index - start,
                forall|k: int|
                    0 <= k < ps@.len() ==> fresh_player(
                        #[trigger] ps@[k],
                        self.placements@[start + k].0,
                        self.placements@[start + k].1,
                    ),
            decreases self.total - self.index,
        {
            let p = self.next_player();
            ps.push(p);
        }
        ps
    }
}

/// The state one step before `(c, d)` on the way to it, against the
/// direction `d` turned by `t`.
pub open spec fn back_state(c: Coord, d: Direction, t: Turn) -> (Coord, Direction) {
    (stepped_back(c, turned(d, t)), turned(d, t))
}

/// The state one step before `s`, steering by `t`.
pub open spec fn predecessor(s: (Coord, Direction), t: Turn) -> (Coord, Direction) {
    back_state(s.0, s.1, t)
}

/// Whether `s` lies one step before the start line.
pub open spec fn is_seed(line: Seq<(Coord, Vec<Direction>)>, s: (Coord, Direction)) -> bool {
    exists|i: int, j: int, t: Turn|
        0 <= i < line.len() && 0 <= j < line[i].1@.len() && s == #[trigger] back_state(
            line[i].0,
            line[i].1@[j],
            t,
        )
}

/// Whether `s` is found within `n` rounds of the backward search from the
/// start line, which only goes on from states on a tile.
pub open spec fn reached_within(
    tiles: Map<Coord, Tile>,
    line: Seq<(Coord, Vec<Direction>)>,
    s: (Coord, Direction),
    n: nat,
) -> bool
    decreases n,
{
    if n == 0 {
        is_seed(line, s)
    } else {
        ||| reached_within(tiles, line, s, (n - 1) as nat)
        ||| exists|p: (Coord, Direction), t: Turn|
            reached_within(tiles, line, p, (n - 1) as nat) && tiles.contains_key(p.0) && s
                == #[trigger] predecessor(p, t)
    }
}

/// Whether a player at `s.0` facing `s.1` can drive on over tiles to cross
/// the start line.
pub open spec fn reaches_finish(
    tiles: Map<Coord, Tile>,
    line: Seq<(Coord, Vec<Direction>)>,
    s: (Coord, Direction),
) -> bool {
    exists|n: nat| reached_within(tiles, line, s, n)
}

/// The number of states not searched yet.
spec fn count_false(s: Seq<bool>) -> nat
    decreases s.len(),
{
    if s.len() == 0 {
        0
    } else {
        count_false(s.drop_last()) + if s.last() {
            0nat
        } else {
            1nat
        }
    }
}

proof fn lemma_count_false_update(s: Seq<bool>, i: int)
    requires
        0 <= i < s.len(),
        !s[i],
    ensures
        count_false(s.update(i, true)) + 1 == count_false(s),
    decreases s.len(),
{
    if i < s.len() - 1 {
        assert(s.update(i, true).drop_last() =~= s.drop_last().update(i, true));
        lemma_count_false_update(s.drop_last(), i);
    } else {
        assert(s.update(i, true).drop_last() =~= s.drop_last());
    }
}

/// Whether every state of `stk` on a tile has its predecessors in `stk`, and
/// every seed is in it: then it holds every state that reaches the finish.
proof fn lemma_closed_holds_reached(
    tiles: Map<Coord, Tile>,
    line: Seq<(Coord, Vec<Direction>)>,
    stk: Seq<(Coord, Direction)>,
    s: (Coord, Direction),
    n: nat,
)
    requires
        forall|x: (Coord, Direction)| is_seed(line, x) ==> stk.contains(x),
        forall|k: int, t: Turn|
            0 <= k < stk.len() && tiles.contains_key(stk[k].0) ==> stk.contains(
                #[trigger] predecessor(stk[k], t),
            ),
        reached_within(tiles, line, s, n),
    ensures
        stk.contains(s),
    decreases n,
{
    if n > 0 {
        if reached_within(tiles, line, s, (n - 1) as nat) {
            lemma_closed_holds_reached(tiles, line, stk, s, (n - 1) as nat);
        } else {
            let (p, t) = choose|p: (Coord, Direction), t: Turn|
                reached_within(tiles, line, p, (n - 1) as nat) && tiles.contains_key(p.0) && s
                    == #[trigger] predecessor(p, t);
            lemma_closed_holds_reached(tiles, line, stk, p, (n - 1) as nat);
            let k = choose|k: int| 0 <= k < stk.len() && stk[k] == p;
            assert(stk.contains(predecessor(stk[k], t)));
        }
    }
}

/// The slot of an on-track state in the table of searched states.
spec fn slot(entries: Seq<(Coord, Tile)>, s: (Coord, Direction)) -> int {
    6 * last_index(entries, s.0) + dir_index(s.1)
}

proof fn lemma_slot_injective(entries: Seq<(Coord, Tile)>, a: (Coord, Direction), b: (Coord, Direction))
    requires
        last_index(entries, a.0) >= 0,
        last_index(entries, b.0) >= 0,
        slot(entries, a) == slot(entries, b),
    ensures
        a == b,
{
    lemma_last_index(entries, a.0);
    lemma_last_index(entries, b.0);
    let ia = last_index(entries, a.0);
    let ib = last_index(entries, b.0);
    assert(ia == ib) by (nonlinear_arith)
        requires
            6 * ia + dir_index(a.1) == 6 * ib + dir_index(b.1),
            0 <= dir_index(a.1) < 6,
            0 <= dir_index(b.1) < 6,
    ;
    assert(a.1 == b.1);
}

/// Pushes the three states one step before `(c, d)`.
fn push_predecessors(stk: &mut Vec<(Coord, Direction)>, c: Coord, d: Direction)
    requires
        steppable(c),
    ensures
        final(stk)@ == old(stk)@ + seq![
            predecessor((c, d), Turn::Straight),
            predecessor((c, d), Turn::Left),
            predecessor((c, d), Turn::Right),
        ],
        forall|t: Turn| final(stk)@.contains(#[trigger] predecessor((c, d), t)),
{
    let ghost start = stk@;
    let a = d + Turn::Straight;
    stk.push((c.step_back(a), a));
    let b = d + Turn::Left;
    stk.push((c.step_back(b), b));
    let e = d + Turn::Right;
    stk.push((c.step_back(e), e));
    let ghost added = seq![
        predecessor((c, d), Turn::Straight),
        predecessor((c, d), Turn::Left),
        predecessor((c, d), Turn::Right),
    ];
    assert(stk@ =~= start + added);
    assert forall|t: Turn| stk@.contains(#[trigger] predecessor((c, d), t)) by {
        match t {
            Turn::Straight => assert(stk@[start.len() as int] == predecessor((c, d), t)),
            Turn::Left => assert(stk@[start.len() as int + 1] == predecessor((c, d), t)),
            Turn::Right => assert(stk@[start.len() as int + 2] == predecessor((c, d), t)),
        }
    }
}

/// The directions of the states in `stk` at `c`, each once, in order of
/// first appearance.
fn directions_at(stk: &Vec<(Coord, Direction)>, c: Coord) -> (r: Vec<Direction>)
    ensures
        forall|d: Direction| r@.contains(d) <==> stk@.contains((c, d)),
        r@.no_duplicates(),
{
    let mut r: Vec<Direction> = Vec::new();
    let mut k: usize = 0;
    while k < stk.len()
        invariant
            k <= stk@.len(),
            r@.no_duplicates(),
            forall|d: Direction|
                r@.contains(d) <==> exists|j: int| 0 <= j < k && #[trigger] stk@[j] == (c, d),
        decreases stk.len() - k,
    {
        let (sc, sd) = stk[k];
        let ghost r0 = r@;
        assert(stk@[k as int] == (sc, sd));
        if sc == c && !direction_listed(&r, sd) {
            r.push(sd);
            proof {
                assert forall|d: Direction| #[trigger] r@.contains(d) <==> (r0.contains(d) || d == sd) by {
                    if r@.contains(d) {
                        let j = choose|j: int| 0 <= j < r@.len() && r@[j] == d;
                        if j < r0.len() {
                            assert(r0[j] == d);
                        }
                    }
                    if r0.contains(d) {
                        let j = choose|j: int| 0 <= j < r0.len() && r0[j] == d;
                        assert(r@[j] == d);
                    }
                    if d == sd {
                        assert(r@[r0.len() as int] == d);
                    }
                }
            }
        }
        proof {
            assert forall|d: Direction|
                r@.contains(d) <==> exists|j: int| 0 <= j < k + 1 && #[trigger] stk@[j] == (c, d) by {
                if exists|j: int| 0 <= j < k + 1 && #[trigger] stk@[j] == (c, d) {
                    let j = choose|j: int| 0 <= j < k + 1 && #[trigger] stk@[j] == (c, d);
                    if j < k {
                        assert(r0.contains(d));
                    }
                }
                if r@.contains(d) && !r0.contains(d) {
                    assert(stk@[k as int] == (c, d));
                }
            }
        }
        k = k + 1;
    }
    proof {
        assert forall|d: Direction| r@.contains(d) <==> stk@.contains((c, d)) by {
            if stk@.contains((c, d)) {
                let j = choose|j: int| 0 <= j < stk@.len() && stk@[j] == (c, d);
                assert(stk@[j] == (c, d));
            }
        }
    }
    r
}

/// Whether every cell of the board lies within the machine integers with a
/// cell to spare.
pub open spec fn board_in_range(m: HexMap) -> bool {
    &&& forall|c: Coord| #[trigger] m.tiles@.contains_key(c) ==> steppable(c)
    &&& forall|i: int| 0 <= i < m.start_line@.len() ==> steppable(#[trigger] m.start_line@[i].0)
    &&& 6 * m.tiles.entries@.len() <= usize::MAX
}

impl HexMap {
    /// For every tile, the directions in which a player there can drive on
    /// over tiles to cross the start line. The search runs backward from the
    /// start line, so the directions of each tile come in the order in which
    /// the search met them, nearest to the finish first.
    pub fn shortest_path(&self) -> (r: CoordMap<Vec<Direction>>)
        requires
            board_in_range(*self),
        ensures
            r@.dom() == self.tiles@.dom(),
            forall|c: Coord, d: Direction|
                #![trigger r@[c]@.contains(d)]
                #![trigger reaches_finish(self.tiles@, self.start_line@, (c, d)), r@.contains_key(c)]
                r@.contains_key(c) ==> (r@[c]@.contains(d) <==> reaches_finish(
                    self.tiles@,
                    self.start_line@,
                    (c, d),
                )),
            forall|c: Coord| #[trigger] r@.contains_key(c) ==> r@[c]@.no_duplicates(),
    {
        let ghost tiles = self.tiles@;
        let ghost line = self.start_line@;
        let ghost entries = self.tiles.entries@;
        let mut stk: Vec<(Coord, Direction)> = Vec::new();

        let mut i: usize = 0;
        while i < self.start_line.len()
            invariant
                i <= line.len(),
                line == self.start_line@,
                board_in_range(*self),
                forall|k: int| 0 <= k < stk@.len() ==> is_seed(line, #[trigger] stk@[k]),
                forall|i2: int, j: int, t: Turn|
                    0 <= i2 < i && 0 <= j < line[i2].1@.len() ==> stk@.contains(
                        #[trigger] back_state(line[i2].0, line[i2].1@[j], t),
                    ),
            decreases line.len() - i,
        {
            let c = self.start_line[i].0;
            let dirs = &self.start_line[i].1;
            assert(steppable(c));
            let mut j: usize = 0;
            while j < dirs.len()
                invariant
                    i < line.len(),
                    line == self.start_line@,
                    c == line[i as int].0,
                    dirs@ == line[i as int].1@,
                    steppable(c),
                    j <= dirs@.len(),
                    forall|k: int| 0 <= k < stk@.len() ==> is_seed(line, #[trigger] stk@[k]),
                    forall|i2: int, j2: int, t: Turn|
                        0 <= i2 < i && 0 <= j2 < line[i2].1@.len() ==> stk@.contains(
                            #[trigger] back_state(line[i2].0, line[i2].1@[j2], t),
                        ),
                    forall|j2: int, t: Turn|
                        0 <= j2 < j ==> stk@.contains(#[trigger] back_state(c, dirs@[j2], t)),
                decreases dirs@.len() - j,
            {
                let ghost before = stk@;
                push_predecessors(&mut stk, c, dirs[j]);
                proof {
                    assert forall|k: int| 0 <= k < stk@.len() implies is_seed(line, #[trigger] stk@[k]) by {
                        if k >= before.len() {
                            let t = if k == before.len() {
                                Turn::Straight
                            } else if k == before.len() + 1 {
                                Turn::Left
                            } else {
                                Turn::Right
                            };
                            assert(stk@[k] == back_state(line[i as int].0, line[i as int].1@[j as int], t));
                        } else {
                            assert(stk@[k] == before[k]);
                        }
                    }
                    assert forall|x: (Coord, Direction)| before.contains(x) implies stk@.contains(x) by {
                        let k = choose|k: int| 0 <= k < before.len() && before[k] == x;
                        assert(stk@[k] == x);
                    }
                }
                j = j + 1;
            }
            i = i + 1;
        }
        proof {
            assert forall|x: (Coord, Direction)| is_seed(line, x) implies stk@.contains(x) by {
                let (i2, j2, t) = choose|i2: int, j2: int, t: Turn|
                    0 <= i2 < line.len() && 0 <= j2 < line[i2].1@.len() && x == #[trigger] back_state(
                        line[i2].0,
                        line[i2].1@[j2],
                        t,
                    );
                assert(stk@.contains(back_state(line[i2].0, line[i2].1@[j2], t)));
            }
            assert forall|k: int| 0 <= k < stk@.len() implies reaches_finish(tiles, line, #[trigger] stk@[k]) by {
                assert(reached_within(tiles, line, stk@[k], 0));
            }
        }

        let n = self.tiles.entries.len();
        let mut visited: Vec<bool> = Vec::new();
        let mut v: usize = 0;
        while v < 6 * n
            invariant
                v <= 6 * n,
                n == entries.len(),
                6 * n <= usize::MAX,
                visited@.len() == v,
                forall|k: int| 0 <= k < v ==> !#[trigger] visited@[k],
            decreases 6 * n - v,
        {
            visited.push(false);
            v = v + 1;
        }
        proof {
            assert forall|x: (Coord, Direction)| tiles.contains_key(x.0) implies 0 <= #[trigger] slot(
                entries,
                x,
            ) < 6 * n by {
                lemma_last_index(entries, x.0);
            }
        }
        let mut index: usize = 0;
        while index < stk.len()
            invariant
                index <= stk@.len(),
                tiles == self.tiles@,
                entries == self.tiles.entries@,
                line == self.start_line@,
                board_in_range(*self),
                n == entries.len(),
                visited@.len() == 6 * n,
                forall|x: (Coord, Direction)|
                    tiles.contains_key(x.0) ==> 0 <= #[trigger] slot(entries, x) < 6 * n,
                forall|x: (Coord, Direction)| is_seed(line, x) ==> stk@.contains(x),
                forall|k: int| 0 <= k < stk@.len() ==> reaches_finish(tiles, line, #[trigger] stk@[k]),
                forall|k: int, t: Turn|
                    0 <= k < index && tiles.contains_key(stk@[k].0) ==> stk@.contains(
                        #[trigger] predecessor(stk@[k], t),
                    ),
                forall|x: (Coord, Direction)|
                    tiles.contains_key(x.0) ==> (visited@[#[trigger] slot(entries, x)] <==> exists|
                        k: int,
                    | 0 <= k < index && stk@[k] == x),
            decreases 3 * count_false(visited@) + stk@.len() - index,
        {
            let ghost vis0 = visited@;
            let ghost stk0 = stk@;
            let (c, d) = stk[index];
            let ghost cur = stk@[index as int];
            assert(cur == (c, d));
            proof {
                lemma_last_index(entries, c);
            }
            match self.tiles.index_of(c) {
                None => {},
                Some(ti) => {
                    let s = ti * 6 + d.to_num() as usize;
                    assert(s == slot(entries, cur));
                    assert(tiles.contains_key(c));
                    if !visited[s] {
                        proof {
                            lemma_count_false_update(visited@, s as int);
                        }
                        visited.set(s, true);
                        assert(steppable(c));
                        push_predecessors(&mut stk, c, d);
                        proof {
                            let n0 = choose|n0: nat| reached_within(tiles, line, cur, n0);
                            assert forall|k: int| 0 <= k < stk@.len() implies reaches_finish(
                                tiles,
                                line,
                                #[trigger] stk@[k],
                            ) by {
                                if k >= stk0.len() {
                                    let t = if k == stk0.len() {
                                        Turn::Straight
                                    } else if k == stk0.len() + 1 {
                                        Turn::Left
                                    } else {
                                        Turn::Right
                                    };
                                    assert(stk@[k] == predecessor(cur, t));
                                    assert(reached_within(tiles, line, stk@[k], n0 + 1));
                                } else {
                                    assert(stk@[k] == stk0[k]);
                                }
                            }
                        }
                    }
                },
            }
            proof {
                assert forall|k: int| 0 <= k < stk0.len() implies stk@[k] == stk0[k] by {}
                assert forall|x: (Coord, Direction)| stk0.contains(x) implies stk@.contains(x) by {
                    let k = choose|k: int| 0 <= k < stk0.len() && stk0[k] == x;
                    assert(stk@[k] == x);
                }
                assert forall|x: (Coord, Direction)| tiles.contains_key(x.0) implies (visited@[#[trigger] slot(
                    entries,
                    x,
                )] <==> exists|k: int| 0 <= k < index + 1 && stk@[k] == x) by {
                    lemma_last_index(entries, x.0);
                    if tiles.contains_key(cur.0) && x != cur && slot(entries, x) == slot(entries, cur) {
                        lemma_slot_injective(entries, x, cur);
                    }
                    if exists|k: int| 0 <= k < index + 1 && stk@[k] == x {
                        let k = choose|k: int| 0 <= k < index + 1 && stk@[k] == x;
                        if k < index {
                            assert(stk0[k] == x);
                        }
                    }
                    if exists|k: int| 0 <= k < index && stk0[k] == x {
                        let k = choose|k: int| 0 <= k < index && stk0[k] == x;
                        assert(stk@[k] == x);
                    }
                }
                assert forall|k: int, t: Turn|
                    0 <= k < index + 1 && tiles.contains_key(stk@[k].0) implies stk@.contains(
                    #[trigger] predecessor(stk@[k], t),
                ) by {
                    if k < index {
                        assert(stk0[k] == stk@[k]);
                        assert(stk0.contains(predecessor(stk0[k], t)));
                    } else if vis0[slot(entries, cur)] {
                        let k2 = choose|k2: int| 0 <= k2 < index && stk0[k2] == cur;
                        assert(stk0.contains(predecessor(stk0[k2], t)));
                    }
                }
            }
            index = index + 1;
        }

        let mut result: CoordMap<Vec<Direction>> = CoordMap::new();
        let mut e: usize = 0;
        while e < self.tiles.entries.len()
            invariant
                e <= entries.len(),
                entries == self.tiles.entries@,
                forall|c: Coord|
                    #[trigger] result@.contains_key(c) <==> exists|k: int| 0 <= k < e && entries[k].0 == c,
                forall|c: Coord, d: Direction|
                    #![trigger result@[c]@.contains(d)]
                    #![trigger stk@.contains((c, d)), result@.contains_key(c)]
                    result@.contains_key(c) ==> (result@[c]@.contains(d) <==> stk@.contains(
                        (c, d),
                    )),
                forall|c: Coord| #[trigger] result@.contains_key(c) ==> result@[c]@.no_duplicates(),
            decreases entries.len() - e,
        {
            let c = self.tiles.entries[e].0;
            let dirs = directions_at(&stk, c);
            result.insert(c, dirs);
            e = e + 1;
        }
        proof {
            assert forall|c: Coord| result@.contains_key(c) <==> tiles.contains_key(c) by {
                lemma_last_index(entries, c);
            }
            assert(result@.dom() =~= tiles.dom());
            assert forall|c: Coord, d: Direction| stk@.contains((c, d)) implies reaches_finish(
                tiles,
                line,
                (c, d),
            ) by {
                let k = choose|k: int| 0 <= k < stk@.len() && stk@[k] == (c, d);
                assert(reaches_finish(tiles, line, stk@[k]));
            }
            assert forall|c: Coord, d: Direction| reaches_finish(tiles, line, (c, d)) implies stk@.contains(
                (c, d),
            ) by {
                let n0 = choose|n0: nat| reached_within(tiles, line, (c, d), n0);
                lemma_closed_holds_reached(tiles, line, stk@, (c, d), n0);
            }
        }
        result
    }
}

} // verus!
