//! Tiles, the maps keyed by cells that hold them, and the memory of the
//! directions taken at choice tiles.
use vstd::prelude::*;
use crate::geometry::{Coord, Direction};

verus! {

/// What a list of entries maps `c` to: the last entry for `c` wins.
pub open spec fn lookup<T>(s: Seq<(Coord, T)>, c: Coord) -> Option<T>
    decreases s.len(),
{
    if s.len() == 0 {
        None
    } else if s.last().0 == c {
        Some(s.last().1)
    } else {
        lookup(s.drop_last(), c)
    }
}

/// The position of the entry for `c` that counts, or -1 if there is none.
pub open spec fn last_index<T>(s: Seq<(Coord, T)>, c: Coord) -> int
    decreases s.len(),
{
    if s.len() == 0 {
        -1
    } else if s.last().0 == c {
        s.len() - 1
    } else {
        last_index(s.drop_last(), c)
    }
}

/// The entry that counts for `c` is the last one, and there is one exactly
/// when some entry is for `c`.
pub proof fn lemma_last_index<T>(s: Seq<(Coord, T)>, c: Coord)
    ensures
        -1 <= last_index(s, c) < s.len(),
        last_index(s, c) >= 0 <==> lookup(s, c) is Some,
        last_index(s, c) >= 0 ==> s[last_index(s, c)].0 == c && lookup(s, c) == Some(
            s[last_index(s, c)].1,
        ),
        (exists|i: int| 0 <= i < s.len() && s[i].0 == c) <==> lookup(s, c) is Some,
    decreases s.len(),
{
    if s.len() > 0 {
        lemma_last_index(s.drop_last(), c);
        if s.last().0 != c {
            if exists|i: int| 0 <= i < s.len() && s[i].0 == c {
                let i = choose|i: int| 0 <= i < s.len() && s[i].0 == c;
                assert(s.drop_last()[i].0 == c);
            }
            if lookup(s, c) is Some {
                let i = last_index(s.drop_last(), c);
                assert(s[i] == s.drop_last()[i]);
            }
        } else {
            assert(s[s.len() - 1].0 == c);
        }
    }
}

/// A finite map from cells to values, kept as a list of entries in which a
/// later entry for a cell replaces an earlier one.
pub struct CoordMap<T> {
    pub entries: Vec<(Coord, T)>,
}

impl<T> View for CoordMap<T> {
    type V = Map<Coord, T>;

    open spec fn view(&self) -> Map<Coord, T> {
        Map::new(
            |c: Coord| lookup(self.entries@, c) is Some,
            |c: Coord| lookup(self.entries@, c)->Some_0,
        )
    }
}

impl<T> CoordMap<T> {
    /// The empty map.
    pub fn new() -> (m: CoordMap<T>)
        ensures
            m@ == Map::<Coord, T>::empty(),
    {
        let m = CoordMap { entries: Vec::new() };
        assert(m@ =~= Map::<Coord, T>::empty());
        m
    }

    /// Maps `c` to `v`, replacing what `c` was mapped to.
    pub fn insert(&mut self, c: Coord, v: T)
        ensures
            final(self)@ == old(self)@.insert(c, v),
    {
        self.entries.push((c, v));
        proof {
            let s = self.entries@;
            assert(s.drop_last() =~= old(self).entries@);
            assert forall|k: Coord| lookup(s, k) == if k == c { Some(v) } else { lookup(old(self).entries@, k) } by {}
        }
        assert(self@ =~= old(self)@.insert(c, v));
    }

    /// The value mapped to `c`, if any.
    pub fn get(&self, c: Coord) -> (r: Option<&T>)
        ensures
            match r {
                Some(v) => self@.contains_key(c) && *v == self@[c],
                None => !self@.contains_key(c),
            },
    {
        let ghost s = self.entries@;
        let mut i = self.entries.len();
        assert(s.subrange(0, i as int) =~= s);
        while i > 0
            invariant
                i <= s.len(),
                s == self.entries@,
                lookup(s, c) == lookup(s.subrange(0, i as int), c),
            decreases i,
        {
            if self.entries[i - 1].0 == c {
                return Some(&self.entries[i - 1].1);
            }
            assert(s.subrange(0, i as int).drop_last() =~= s.subrange(0, i - 1));
            i = i - 1;
        }
        None
    }

    /// The position of the entry that holds the value of `c`, if any.
    pub fn index_of(&self, c: Coord) -> (r: Option<usize>)
        ensures
            r == (if last_index(self.entries@, c) >= 0 {
                Some(last_index(self.entries@, c) as usize)
            } else {
                None::<usize>
            }),
    {
        let ghost s = self.entries@;
        let mut i = self.entries.len();
        assert(s.subrange(0, i as int) =~= s);
        while i > 0
            invariant
                i <= s.len(),
                s == self.entries@,
                last_index(s, c) == last_index(s.subrange(0, i as int), c),
            decreases i,
        {
            if self.entries[i - 1].0 == c {
                return Some(i - 1);
            }
            assert(s.subrange(0, i as int).drop_last() =~= s.subrange(0, i - 1));
            i = i - 1;
        }
        None
    }

    /// Whether `c` is mapped to anything.
    pub fn contains_key(&self, c: Coord) -> (r: bool)
        ensures
            r == self@.contains_key(c),
    {
        match self.get(c) {
            Some(_) => true,
            None => false,
        }
    }

    /// Whether the map holds no cell.
    pub fn is_empty(&self) -> (r: bool)
        ensures
            r == (self@.dom() == Set::<Coord>::empty()),
    {
        if self.entries.len() == 0 {
            assert(self@.dom() =~= Set::<Coord>::empty());
            true
        } else {
            let ghost s = self.entries@;
            assert(self@.dom().contains(s.last().0));
            false
        }
    }
}

/// A direction recorded at a choice tile for one round.
#[derive(Clone, Copy, PartialEq, Eq, Structural, Debug)]
pub struct ChoiceRecord {
    pub tile: Coord,
    pub round: usize,
    pub direction: Direction,
}

/// The direction recorded for `tile` in `round`: the first record wins.
pub open spec fn recorded(s: Seq<ChoiceRecord>, tile: Coord, round: int) -> Option<Direction>
    decreases s.len(),
{
    if s.len() == 0 {
        None
    } else if s[0].tile == tile && s[0].round == round {
        Some(s[0].direction)
    } else {
        recorded(s.drop_first(), tile, round)
    }
}

/// The directions taken through choice tiles, one per tile and round: the
/// first player through a choice tile in a round sets the direction that
/// every later player must take there in that round.
pub struct ChoiceMemory {
    pub records: Vec<ChoiceRecord>,
}

impl View for ChoiceMemory {
    type V = Map<(Coord, int), Direction>;

    open spec fn view(&self) -> Map<(Coord, int), Direction> {
        Map::new(
            |k: (Coord, int)| recorded(self.records@, k.0, k.1) is Some,
            |k: (Coord, int)| recorded(self.records@, k.0, k.1)->Some_0,
        )
    }
}

proof fn lemma_recorded_push(s: Seq<ChoiceRecord>, rec: ChoiceRecord, tile: Coord, round: int)
    ensures
        recorded(s.push(rec), tile, round) == if recorded(s, tile, round) is Some {
            recorded(s, tile, round)
        } else if rec.tile == tile && rec.round == round {
            Some(rec.direction)
        } else {
            None
        },
    decreases s.len(),
{
    assert(s.push(rec)[0] == if s.len() > 0 { s[0] } else { rec });
    if s.len() == 0 {
        assert(s.push(rec).drop_first() =~= s);
    } else {
        assert(s.push(rec).drop_first() =~= s.drop_first().push(rec));
        lemma_recorded_push(s.drop_first(), rec, tile, round);
    }
}

impl ChoiceMemory {
    /// A memory that holds no choice yet.
    pub fn new() -> (m: ChoiceMemory)
        ensures
            m@ == Map::<(Coord, int), Direction>::empty(),
    {
        let m = ChoiceMemory { records: Vec::new() };
        assert(m@ =~= Map::<(Coord, int), Direction>::empty());
        m
    }

    /// The direction recorded at `tile` in `round`, if any.
    pub fn get(&self, tile: Coord, round: usize) -> (r: Option<Direction>)
        ensures
            r == self@.get((tile, round as int)),
    {
        let ghost s = self.records@;
        let mut i: usize = 0;
        assert(s.subrange(0, s.len() as int) =~= s);
        while i < self.records.len()
            invariant
                i <= s.len(),
                s == self.records@,
                recorded(s, tile, round as int) == recorded(s.subrange(i as int, s.len() as int), tile, round as int),
            decreases s.len() - i,
        {
            let rec = self.records[i];
            assert(s.subrange(i as int, s.len() as int)[0] == rec);
            if rec.tile == tile && rec.round == round {
                return Some(rec.direction);
            }
            assert(s.subrange(i as int, s.len() as int).drop_first() =~= s.subrange(i + 1, s.len() as int));
            i = i + 1;
        }
        assert(s.subrange(i as int, s.len() as int) =~= Seq::<ChoiceRecord>::empty());
        None
    }

    /// Records `direction` at `tile` for `round` unless a direction is already
    /// recorded there for that round.
    pub fn record(&mut self, tile: Coord, round: usize, direction: Direction)
        ensures
            final(self)@ == if old(self)@.contains_key((tile, round as int)) {
                old(self)@
            } else {
                old(self)@.insert((tile, round as int), direction)
            },
    {
        if self.get(tile, round).is_none() {
            let rec = ChoiceRecord { tile, round, direction };
            self.records.push(rec);
            proof {
                assert forall|k: (Coord, int)| #[trigger] recorded(self.records@, k.0, k.1) == if k == (
                    tile,
                    round as int,
                ) {
                    Some(direction)
                } else {
                    recorded(old(self).records@, k.0, k.1)
                } by {
                    lemma_recorded_push(old(self).records@, rec, k.0, k.1);
                }
            }
            assert(self@ =~= old(self)@.insert((tile, round as int), direction));
        }
    }
}

/// A cell of the track with its exits and effects.
pub struct Tile {
    /// A narrow passage: a lone player here blocks it.
    pub chikane: bool,
    /// A speed zone: ending a move here forces a gear down.
    pub blue: bool,
    pub start_field: bool,
    /// The exits allowed by default.
    pub directions: Vec<Direction>,
    /// A fork whose direction is fixed per round by the first player through.
    pub choice: bool,
    pub rotate: bool,
    pub oneway: bool,
    /// Exits that throw a player off the track.
    pub blockage: Vec<Direction>,
    /// The one exit allowed when arriving from a given cell.
    pub forced: CoordMap<Direction>,
}

/// Whether the tile dictates exits by the cell a player arrives from.
pub open spec fn has_forced(t: Tile) -> bool {
    t.forced@.dom() != Set::<Coord>::empty()
}

impl Default for Tile {
    fn default() -> (t: Tile)
        ensures
            !t.chikane && !t.blue && !t.start_field && !t.choice && !t.rotate && !t.oneway,
            t.directions@ == Seq::<Direction>::empty(),
            t.blockage@ == Seq::<Direction>::empty(),
            t.forced@ == Map::<Coord, Direction>::empty(),
    {
        Tile {
            chikane: false,
            blue: false,
            start_field: false,
            directions: Vec::new(),
            choice: false,
            rotate: false,
            oneway: false,
            blockage: Vec::new(),
            forced: CoordMap::new(),
        }
    }
}

impl Tile {
    /// A plain tile with the given exits.
    pub fn new(directions: Vec<Direction>) -> (t: Tile)
        ensures
            !t.chikane && !t.blue && !t.start_field && !t.choice && !t.rotate && !t.oneway,
            t.directions@ == directions@,
            t.blockage@ == Seq::<Direction>::empty(),
            t.forced@ == Map::<Coord, Direction>::empty(),
    {
        let mut t = Tile::default();
        t.directions = directions;
        t
    }

    /// The same tile, on the start grid.
    pub fn start(self) -> (t: Tile)
        ensures
            t == (Tile { start_field: true, ..self }),
    {
        Tile { start_field: true, ..self }
    }

    /// The same tile, as a speed zone.
    pub fn blue(self) -> (t: Tile)
        ensures
            t == (Tile { blue: true, ..self }),
    {
        Tile { blue: true, ..self }
    }

    /// The same tile, as a narrow passage.
    pub fn chikane(self) -> (t: Tile)
        ensures
            t == (Tile { chikane: true, ..self }),
    {
        Tile { chikane: true, ..self }
    }

    /// The same tile, as a fork.
    pub fn choice(self) -> (t: Tile)
        ensures
            t == (Tile { choice: true, ..self }),
    {
        Tile { choice: true, ..self }
    }

    /// The same tile, marked as rotating.
    pub fn rotate(self) -> (t: Tile)
        ensures
            t == (Tile { rotate: true, ..self }),
    {
        Tile { rotate: true, ..self }
    }

    /// The same tile, marked as one-way.
    pub fn oneway(self) -> (t: Tile)
        ensures
            t == (Tile { oneway: true, ..self }),
    {
        Tile { oneway: true, ..self }
    }

    /// The same tile, with the given exits blocked.
    pub fn blockage(self, blockage: Vec<Direction>) -> (t: Tile)
        ensures
            t == (Tile { blockage, ..self }),
    {
        Tile { blockage, ..self }
    }

    /// The same tile, with the exit forced by the cell a player arrives from.
    pub fn forced(self, forced: CoordMap<Direction>) -> (t: Tile)
        ensures
            t == (Tile { forced, ..self }),
    {
        Tile { forced, ..self }
    }
}

} // verus!
