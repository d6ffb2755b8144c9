//! Triangular grid coordinates, the six directions of travel, steering turns
//! and gear changes, with the laws that tie them together.
use vstd::prelude::*;

verus! {

/// Errors reported by the movement rules.
#[derive(Clone, Copy, PartialEq, Eq, Structural, Debug)]
pub enum RuleError {
    /// A displacement that is not one of the six unit steps.
    InvalidDisplacement,
    /// The board holds no tile where the rules need one.
    MissingTileData,
}

/// The six directions of travel, in counter-clockwise order.
#[derive(Clone, Copy, PartialEq, Eq, Structural, PartialOrd, Ord, Debug, Hash)]
pub enum Direction {
    UR,
    U,
    UL,
    DL,
    D,
    DR,
}

/// A steering decision taken when leaving a tile.
#[derive(Clone, Copy, PartialEq, Eq, Structural, PartialOrd, Ord, Debug, Hash)]
pub enum Turn {
    Straight,
    Left,
    Right,
}

/// A request to change gear before rolling.
#[derive(Clone, Copy, PartialEq, Eq, Structural, PartialOrd, Ord, Debug, Hash)]
pub enum ChangeGear {
    Down,
    Stay,
    Up,
}

/// A cell of the triangular lattice in axial form; the third axis is `-q - r`.
#[derive(Clone, Copy, PartialEq, Eq, Structural, PartialOrd, Ord, Debug, Hash)]
pub struct Coord {
    pub q: i32,
    pub r: i32,
}

/// Lowest gear.
pub const MIN_GEAR: u8 = 1;

/// Highest gear.
pub const MAX_GEAR: u8 = 3;

/// The position of a direction in the cyclic order.
pub open spec fn dir_index(d: Direction) -> int {
    match d {
        Direction::UR => 0,
        Direction::U => 1,
        Direction::UL => 2,
        Direction::DL => 3,
        Direction::D => 4,
        Direction::DR => 5,
    }
}

/// The direction at a position of the cyclic order (taken mod 6).
pub open spec fn dir_at(n: int) -> Direction {
    let m = n % 6;
    if m == 0 {
        Direction::UR
    } else if m == 1 {
        Direction::U
    } else if m == 2 {
        Direction::UL
    } else if m == 3 {
        Direction::DL
    } else if m == 4 {
        Direction::D
    } else {
        Direction::DR
    }
}

/// How far a turn moves along the cyclic order.
pub open spec fn turn_offset(t: Turn) -> int {
    match t {
        Turn::Left => 1,
        Turn::Straight => 0,
        Turn::Right => -1,
    }
}

/// The direction faced after steering `t` from `d`.
pub open spec fn turned(d: Direction, t: Turn) -> Direction {
    dir_at(dir_index(d) + 6 + turn_offset(t))
}

/// The turn that steers from `a` to `b`, if one does.
pub open spec fn turn_between(a: Direction, b: Direction) -> Option<Turn> {
    if turned(a, Turn::Straight) == b {
        Some(Turn::Straight)
    } else if turned(a, Turn::Left) == b {
        Some(Turn::Left)
    } else if turned(a, Turn::Right) == b {
        Some(Turn::Right)
    } else {
        None
    }
}

/// The unit displacement of one step in direction `d`.
pub open spec fn unit(d: Direction) -> Coord {
    match d {
        Direction::UR => Coord { q: 1i32, r: -1i32 },
        Direction::U => Coord { q: 0i32, r: -1i32 },
        Direction::UL => Coord { q: -1i32, r: 0i32 },
        Direction::DL => Coord { q: -1i32, r: 1i32 },
        Direction::D => Coord { q: 0, r: 1 },
        Direction::DR => Coord { q: 1, r: 0 },
    }
}

/// Whether `c` is the displacement of one step in some direction.
pub open spec fn is_unit(c: Coord) -> bool {
    exists|d: Direction| unit(d) == c
}

/// The gear reached from `gear` by the request `c`, kept within the gear range.
pub open spec fn gear_after(c: ChangeGear, gear: int) -> int {
    match c {
        ChangeGear::Down => if gear <= MIN_GEAR { MIN_GEAR as int } else { gear - 1 },
        ChangeGear::Stay => gear,
        ChangeGear::Up => if gear >= MAX_GEAR { MAX_GEAR as int } else { gear + 1 },
    }
}

/// Whether `k` is `m·√3/2` rounded down, for `m >= 0`.
pub open spec fn is_half_root3(m: int, k: int) -> bool {
    0 <= k && 4 * k * k <= 3 * m * m && 3 * m * m < 4 * (k + 1) * (k + 1)
}

/// Whether `a <= y·√3`.
pub open spec fn below_root3(a: int, y: int) -> bool {
    if y >= 0 {
        a <= 0 || a * a <= 3 * y * y
    } else {
        a < 0 && a * a >= 3 * y * y
    }
}

/// Whether `y·√3 <= a`.
pub open spec fn above_root3(a: int, y: int) -> bool {
    if y >= 0 {
        a >= 0 && 3 * y * y <= a * a
    } else {
        a >= 0 || a * a <= 3 * y * y
    }
}

/// Whether `r` is `(y·√3 - x)/3` rounded toward zero.
pub open spec fn is_pixel_row(x: int, y: int, r: int) -> bool {
    if below_root3(x, y) {
        r >= 0 && below_root3(3 * r + x, y) && !below_root3(3 * r + 3 + x, y)
    } else {
        r <= 0 && above_root3(3 * r + x, y) && !above_root3(3 * r - 3 + x, y)
    }
}

proof fn lemma_root3_monotone(a: int, b: int, y: int)
    requires
        b <= a,
    ensures
        below_root3(a, y) ==> below_root3(b, y),
        above_root3(b, y) ==> above_root3(a, y),
        !below_root3(a, y) ==> above_root3(a, y),
{
    if y >= 0 {
        if 0 <= b {
            assert(b * b <= a * a) by (nonlinear_arith)
                requires
                    0 <= b <= a,
            ;
        }
    } else {
        if b <= a && a < 0 {
            assert(b * b >= a * a) by (nonlinear_arith)
                requires
                    b <= a < 0,
            ;
        }
        if 0 <= b {
            assert(b * b <= a * a) by (nonlinear_arith)
                requires
                    0 <= b <= a,
            ;
        }
    }
}

/// `y·√3` rounded down and rounded up.
fn root3_bounds(y: i32) -> (r: (i64, i64))
    ensures
        below_root3(r.0 as int, y as int),
        !below_root3(r.0 + 1, y as int),
        above_root3(r.1 as int, y as int),
        !above_root3(r.1 - 1, y as int),
        -3_800_000_001 <= r.0 <= r.1 <= 3_800_000_001,
{
    let m: u64 = if y >= 0 {
        y as u64
    } else {
        (-(y as i64)) as u64
    };
    let ghost yi = y as int;
    let ghost mi = m as int;
    assert(mi * mi == yi * yi) by (nonlinear_arith)
        requires
            mi == yi || mi == -yi,
    ;
    assert(mi * mi <= 0x4000_0000_0000_0000) by (nonlinear_arith)
        requires
            0 <= mi <= 0x8000_0000,
    ;
    let sq = (m as u128) * (m as u128);
    let three_sq = 3 * sq;
    assert(three_sq == 3 * mi * mi) by (nonlinear_arith)
        requires
            sq == mi * mi,
            three_sq == 3 * sq,
    ;
    let k = isqrt(three_sq);
    let ghost ki = k as int;
    assert(ki <= 3_800_000_000) by (nonlinear_arith)
        requires
            ki * ki <= 3 * mi * mi,
            mi * mi <= 0x4000_0000_0000_0000,
            ki >= 0,
    ;
    assert(3 * yi * yi == 3 * mi * mi) by (nonlinear_arith)
        requires
            mi * mi == yi * yi,
    ;
    assert(ki * ki <= 3 * yi * yi && 3 * yi * yi < (ki + 1) * (ki + 1));
    assert(ki * ki < (ki + 1) * (ki + 1)) by (nonlinear_arith)
        requires
            ki >= 0,
    ;
    assert(ki >= 1 ==> (ki - 1) * (ki - 1) < ki * ki) by (nonlinear_arith)
        requires
            ki >= 0,
    ;
    assert((-ki - 1) * (-ki - 1) == (ki + 1) * (ki + 1) && (-ki) * (-ki) == ki * ki && (-ki + 1) * (
    -ki + 1) == (ki - 1) * (ki - 1)) by (nonlinear_arith);
    let exact = (k as u128) * (k as u128) == three_sq;
    let k = k as i64;
    if y >= 0 {
        if exact {
            (k, k)
        } else {
            (k, k + 1)
        }
    } else {
        if exact {
            assert(ki >= 1) by (nonlinear_arith)
                requires
                    ki * ki == 3 * mi * mi,
                    mi >= 1,
                    ki >= 0,
            ;
            (-k, -k)
        } else {
            (-k - 1, -k)
        }
    }
}

/// The integer square root of `n`: the largest `r` with `r * r <= n`.
pub fn isqrt(n: u128) -> (r: u64)
    ensures
        (r as int) * (r as int) <= n,
        n < (r as int + 1) * (r as int + 1),
{
    let mut lo: u128 = 0;
    let mut hi: u128 = 0x1_0000_0000_0000_0000;
    assert(n < hi * hi) by (nonlinear_arith)
        requires
            n < 0x1_0000_0000_0000_0000_0000_0000_0000_0000,
            hi == 0x1_0000_0000_0000_0000,
    ;
    while hi - lo > 1
        invariant
            lo < hi <= 0x1_0000_0000_0000_0000,
            lo * lo <= n,
            n < hi * hi,
        decreases hi - lo,
    {
        let mid = lo + (hi - lo) / 2;
        assert(mid * mid < 0x1_0000_0000_0000_0000_0000_0000_0000_0000) by (nonlinear_arith)
            requires
                mid < 0x1_0000_0000_0000_0000,
        ;
        if mid * mid <= n {
            lo = mid;
        } else {
            hi = mid;
        }
    }
    assert(hi == lo + 1);
    lo as u64
}

/// Whether a step of one cell from `c` stays within the machine integers.
pub open spec fn steppable(c: Coord) -> bool {
    i32::MIN < c.q < i32::MAX && i32::MIN < c.r < i32::MAX
}

/// `c` moved one cell in direction `d`.
pub open spec fn stepped(c: Coord, d: Direction) -> Coord {
    Coord { q: (c.q + unit(d).q) as i32, r: (c.r + unit(d).r) as i32 }
}

/// `c` moved one cell against direction `d`.
pub open spec fn stepped_back(c: Coord, d: Direction) -> Coord {
    Coord { q: (c.q - unit(d).q) as i32, r: (c.r - unit(d).r) as i32 }
}

impl Direction {
    /// The position of the direction in the cyclic order.
    pub fn to_num(self) -> (n: u8)
        ensures
            n == dir_index(self),
            n < 6,
    {
        match self {
            Direction::UR => 0,
            Direction::U => 1,
            Direction::UL => 2,
            Direction::DL => 3,
            Direction::D => 4,
            Direction::DR => 5,
        }
    }

    /// The direction at position `n` of the cyclic order.
    pub fn from_num(n: u8) -> (d: Direction)
        requires
            n < 6,
        ensures
            dir_index(d) == n,
            d == dir_at(n as int),
    {
        match n {
            0 => Direction::UR,
            1 => Direction::U,
            2 => Direction::UL,
            3 => Direction::DL,
            4 => Direction::D,
            _ => Direction::DR,
        }
    }

    /// The turn that steers from `self` to `d`, if one turn does.
    pub fn turn_to_dir(self, d: Direction) -> (r: Option<Turn>)
        ensures
            r == turn_between(self, d),
            match r {
                Some(t) => turned(self, t) == d,
                None => forall|t: Turn| turned(self, t) != d,
            },
    {
        if self == d {
            Some(Turn::Straight)
        } else if (self.to_num() + 1) % 6 == d.to_num() {
            Some(Turn::Left)
        } else if self.to_num() == (d.to_num() + 1) % 6 {
            Some(Turn::Right)
        } else {
            None
        }
    }

    /// The unit displacement of one step in this direction.
    pub fn to_coord(self) -> (c: Coord)
        ensures
            c == unit(self),
    {
        match self {
            Direction::UR => Coord::tri(0, 0, -1),
            Direction::U => Coord::tri(0, -1, 0),
            Direction::UL => Coord::tri(-1, 0, 0),
            Direction::DL => Coord::tri(0, 0, 1),
            Direction::D => Coord::tri(0, 1, 0),
            Direction::DR => Coord::tri(1, 0, 0),
        }
    }

    /// The direction whose unit displacement is `c`.
    pub fn from_coord(c: Coord) -> (r: Result<Direction, RuleError>)
        ensures
            match r {
                Ok(d) => unit(d) == c,
                Err(e) => e == RuleError::InvalidDisplacement && !is_unit(c),
            },
    {
        if c == Coord::tri(0, 0, -1) {
            Ok(Direction::UR)
        } else if c == Coord::tri(0, -1, 0) {
            Ok(Direction::U)
        } else if c == Coord::tri(-1, 0, 0) {
            Ok(Direction::UL)
        } else if c == Coord::tri(0, 0, 1) {
            Ok(Direction::DL)
        } else if c == Coord::tri(0, 1, 0) {
            Ok(Direction::D)
        } else if c == Coord::tri(1, 0, 0) {
            Ok(Direction::DR)
        } else {
            assert forall|d: Direction| unit(d) != c by {
                match d {
                    Direction::UR => {},
                    Direction::U => {},
                    Direction::UL => {},
                    Direction::DL => {},
                    Direction::D => {},
                    Direction::DR => {},
                }
            }
            Err(RuleError::InvalidDisplacement)
        }
    }
}

impl Turn {
    /// How far the turn moves along the cyclic order of directions.
    pub fn to_num(self) -> (n: i8)
        ensures
            n == turn_offset(self),
    {
        match self {
            Turn::Left => 1,
            Turn::Straight => 0,
            Turn::Right => -1,
        }
    }
}

impl std::ops::Add<Turn> for Direction {
    type Output = Direction;

    /// The direction faced after steering `other`.
    fn add(self, other: Turn) -> (d: Direction)
        ensures
            d == turned(self, other),
    {
        let n = (self.to_num() as i8 + 6 + other.to_num()) as u8;
        Direction::from_num(n % 6)
    }
}

impl vstd::std_specs::ops::AddSpecImpl<Turn> for Direction {
    open spec fn obeys_add_spec() -> bool {
        true
    }

    open spec fn add_req(self, rhs: Turn) -> bool {
        true
    }

    open spec fn add_spec(self, rhs: Turn) -> Direction {
        turned(self, rhs)
    }
}

impl ChangeGear {
    /// The gear reached from `gear`, never below the lowest nor above the highest.
    pub fn update_gear(self, gear: u8) -> (g: u8)
        ensures
            g == gear_after(self, gear as int),
            MIN_GEAR <= gear <= MAX_GEAR ==> MIN_GEAR <= g <= MAX_GEAR,
    {
        match self {
            ChangeGear::Down => if gear <= MIN_GEAR { MIN_GEAR } else { gear - 1 },
            ChangeGear::Stay => gear,
            ChangeGear::Up => if gear >= MAX_GEAR { MAX_GEAR } else { gear + 1 },
        }
    }
}

impl std::ops::Add for Coord {
    type Output = Coord;

    fn add(self, other: Coord) -> (c: Coord)
        ensures
            c.q == self.q + other.q,
            c.r == self.r + other.r,
    {
        Coord { q: self.q + other.q, r: self.r + other.r }
    }
}

impl vstd::std_specs::ops::AddSpecImpl for Coord {
    open spec fn obeys_add_spec() -> bool {
        true
    }

    open spec fn add_req(self, rhs: Coord) -> bool {
        &&& i32::MIN <= self.q + rhs.q <= i32::MAX
        &&& i32::MIN <= self.r + rhs.r <= i32::MAX
    }

    open spec fn add_spec(self, rhs: Coord) -> Coord {
        Coord { q: (self.q + rhs.q) as i32, r: (self.r + rhs.r) as i32 }
    }
}

impl std::ops::Sub for Coord {
    type Output = Coord;

    fn sub(self, other: Coord) -> (c: Coord)
        ensures
            c.q == self.q - other.q,
            c.r == self.r - other.r,
    {
        Coord { q: self.q - other.q, r: self.r - other.r }
    }
}

impl vstd::std_specs::ops::SubSpecImpl for Coord {
    open spec fn obeys_sub_spec() -> bool {
        true
    }

    open spec fn sub_req(self, rhs: Coord) -> bool {
        &&& i32::MIN <= self.q - rhs.q <= i32::MAX
        &&& i32::MIN <= self.r - rhs.r <= i32::MAX
    }

    open spec fn sub_spec(self, rhs: Coord) -> Coord {
        Coord { q: (self.q - rhs.q) as i32, r: (self.r - rhs.r) as i32 }
    }
}

impl std::ops::Mul<i32> for Coord {
    type Output = Coord;

    fn mul(self, k: i32) -> (c: Coord)
        ensures
            c.q == self.q * k,
            c.r == self.r * k,
    {
        Coord { q: self.q * k, r: self.r * k }
    }
}

impl vstd::std_specs::ops::MulSpecImpl<i32> for Coord {
    open spec fn obeys_mul_spec() -> bool {
        true
    }

    open spec fn mul_req(self, k: i32) -> bool {
        &&& i32::MIN <= self.q * k <= i32::MAX
        &&& i32::MIN <= self.r * k <= i32::MAX
    }

    open spec fn mul_spec(self, k: i32) -> Coord {
        Coord { q: (self.q * k) as i32, r: (self.r * k) as i32 }
    }
}

impl Coord {
    /// The cell of a pixel, for a unit scale: `q` is `2x/3` and `r` is
    /// `(y·√3 - x)/3`, both rounded toward zero.
    pub fn new(x: i32, y: i32) -> (c: Coord)
        ensures
            c.q == (if x >= 0 { (2 * x) / 3 } else { -((-2 * x) / 3) }),
            is_pixel_row(x as int, y as int, c.r as int),
    {
        let q = (2 * (x as i64)) / 3;
        let (floor, ceil) = root3_bounds(y);
        let xi = x as i64;
        let r = if xi <= floor {
            let r = (floor - xi) / 3;
            proof {
                lemma_root3_monotone(floor as int, 3 * r + xi, y as int);
                lemma_root3_monotone(3 * r + 3 + xi, floor + 1, y as int);
                lemma_root3_monotone(floor as int, xi as int, y as int);
            }
            r
        } else {
            proof {
                lemma_root3_monotone(xi as int, floor + 1, y as int);
                if xi < ceil {
                    lemma_root3_monotone(ceil - 1, xi as int, y as int);
                }
            }
            let w = (xi - ceil) / 3;
            proof {
                lemma_root3_monotone(xi - 3 * w, ceil as int, y as int);
                lemma_root3_monotone(ceil - 1, xi - 3 * w - 3, y as int);
            }
            -w
        };
        Coord { q: q as i32, r: r as i32 }
    }

    /// The cell with axial coordinates `q` and `r`.
    pub fn axel(q: i32, r: i32) -> (c: Coord)
        ensures
            c.q == q,
            c.r == r,
    {
        Coord { q, r }
    }

    /// The cell reached by moving `q` down-right, `r` down and `s` down-left.
    pub fn tri(q: i32, r: i32, s: i32) -> (c: Coord)
        requires
            i32::MIN <= q - s <= i32::MAX,
            i32::MIN <= r + s <= i32::MAX,
        ensures
            c.q == q - s,
            c.r == r + s,
    {
        Coord { q: q - s, r: r + s }
    }

    /// The third, derived axis.
    pub fn s(&self) -> (s: i32)
        requires
            i32::MIN <= -self.q - self.r <= i32::MAX,
        ensures
            s == -self.q - self.r,
    {
        (-(self.q as i64) - self.r as i64) as i32
    }

    pub fn q(&self) -> (q: i32)
        ensures
            q == self.q,
    {
        self.q
    }

    pub fn r(&self) -> (r: i32)
        ensures
            r == self.r,
    {
        self.r
    }

    /// The horizontal pixel offset of the cell centre, for a unit scale.
    pub fn x(&self) -> (x: i32)
        requires
            i32::MIN <= self.q * 3 <= i32::MAX,
        ensures
            x == (if self.q >= 0 { (self.q * 3) / 2 } else { -((-self.q * 3) / 2) }),
    {
        self.q * 3 / 2
    }

    /// The vertical pixel offset of the cell centre, for a unit scale:
    /// `(2r + q)·√3/2` rounded toward zero.
    pub fn y(&self) -> (y: i32)
        requires
            -i32::MAX <= 2 * self.r + self.q <= i32::MAX,
        ensures
            ({
                let n = 2 * self.r + self.q;
                &&& n >= 0 ==> y >= 0 && is_half_root3(n, y as int)
                &&& n < 0 ==> y <= 0 && is_half_root3(-n, -y)
            }),
    {
        let n = 2 * (self.r as i64) + self.q as i64;
        let m: u64 = if n >= 0 {
            n as u64
        } else {
            (-n) as u64
        };
        assert(m <= i32::MAX);
        assert((m as int) * (m as int) <= 0x4000_0000_0000_0000) by (nonlinear_arith)
            requires
                0 <= m <= 0x7fff_ffff,
        ;
        let mm = (m as u128) * (m as u128);
        let t = (3 * mm) / 4;
        let k = isqrt(t);
        proof {
            let mi = m as int;
            let ki = k as int;
            assert(mm == mi * mi);
            assert(3 * mm == 3 * mi * mi) by (nonlinear_arith)
                requires
                    mm == mi * mi,
            ;
            assert(t == 3 * mi * mi / 4);
            assert(ki * ki <= 3 * mi * mi / 4);
            assert(3 * mi * mi / 4 < (ki + 1) * (ki + 1));
            assert(4 * ki * ki <= 3 * mi * mi) by (nonlinear_arith)
                requires
                    ki * ki <= 3 * mi * mi / 4,
            ;
            assert(3 * mi * mi < 4 * (ki + 1) * (ki + 1)) by (nonlinear_arith)
                requires
                    3 * mi * mi / 4 < (ki + 1) * (ki + 1),
            ;
            assert(ki <= mi) by (nonlinear_arith)
                requires
                    4 * ki * ki <= 3 * mi * mi,
                    ki >= 0,
                    mi >= 0,
            ;
        }
        if n >= 0 {
            k as i32
        } else {
            -(k as i32)
        }
    }

    /// One cell further in direction `d`.
    pub fn step(self, d: Direction) -> (c: Coord)
        requires
            steppable(self),
        ensures
            c == stepped(self, d),
    {
        self + d.to_coord()
    }

    /// One cell back against direction `d`.
    pub fn step_back(self, d: Direction) -> (c: Coord)
        requires
            steppable(self),
        ensures
            c == stepped_back(self, d),
    {
        self - d.to_coord()
    }
}

/// A direction is recovered from its unit displacement: every unit step
/// belongs to exactly one direction.
pub proof fn lemma_direction_round_trip(d: Direction)
    ensures
        is_unit(unit(d)),
        forall|e: Direction| unit(e) == unit(d) ==> e == d,
{
    assert(unit(d) == unit(d));
}

/// Steering agrees with the cyclic order: `Left` moves one place forward,
/// `Right` one place back, `Straight` stays, and no turn reaches a direction
/// that is neither equal nor adjacent.
pub proof fn lemma_turn_index(a: Direction, b: Direction)
    ensures
        turned(a, Turn::Straight) == b <==> a == b,
        turned(a, Turn::Left) == b <==> dir_index(b) == (dir_index(a) + 1) % 6,
        turned(a, Turn::Right) == b <==> dir_index(a) == (dir_index(b) + 1) % 6,
        (exists|t: Turn| turned(a, t) == b) <==> (a == b || dir_index(b) == (dir_index(a) + 1)
            % 6 || dir_index(a) == (dir_index(b) + 1) % 6),
{
    if a == b || dir_index(b) == (dir_index(a) + 1) % 6 || dir_index(a) == (dir_index(b) + 1) % 6 {
        if a == b {
            assert(turned(a, Turn::Straight) == b);
        } else if dir_index(b) == (dir_index(a) + 1) % 6 {
            assert(turned(a, Turn::Left) == b);
        } else {
            assert(turned(a, Turn::Right) == b);
        }
    }
}

/// Turning left and then right, or right and then left, restores the direction.
pub proof fn lemma_left_right_inverse(d: Direction)
    ensures
        turned(turned(d, Turn::Left), Turn::Right) == d,
        turned(turned(d, Turn::Right), Turn::Left) == d,
{
}

/// Gear changes stay within the gear range; in particular a change down from
/// the lowest gear and a change up from the highest gear leave it unchanged.
pub proof fn lemma_gear_clamped(c: ChangeGear, gear: int)
    requires
        MIN_GEAR <= gear <= MAX_GEAR,
    ensures
        MIN_GEAR <= gear_after(c, gear) <= MAX_GEAR,
        gear_after(ChangeGear::Down, MIN_GEAR as int) == MIN_GEAR,
        gear_after(ChangeGear::Up, MAX_GEAR as int) == MAX_GEAR,
{
}

} // verus!
