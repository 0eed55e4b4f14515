use vstd::prelude::*;

use crate::escapes::Color;
use crate::escapes::KeyPress;
use crate::game_logic::blocks::add_center;
use crate::game_logic::blocks::BlockFactory;
use crate::game_logic::blocks::FallingBlock;
use crate::game_logic::blocks::RotateMode;
use crate::game_logic::blocks::SquareContent;
use crate::game_logic::player::player_to_world_spec;
use crate::game_logic::player::BlockOrTimer;
use crate::game_logic::player::Player;
use crate::game_logic::BlockRelativeCoords;
use crate::game_logic::PlayerPoint;
use crate::game_logic::WorldPoint;
use crate::ingame_ui::first_flash;
use crate::lobby::ClientInfo;
use crate::lobby::MAX_CLIENTS_PER_LOBBY;

verus! {

/// The kinds of games.
#[derive(Clone, Copy, PartialEq, Eq, Structural, Hash, Debug)]
pub enum Mode {
    Traditional,
    Bottle,
    Ring,
}

impl Mode {
    pub open spec fn spec_max_players(self) -> usize {
        match self {
            Mode::Traditional | Mode::Bottle => MAX_CLIENTS_PER_LOBBY,
            Mode::Ring => 4,
        }
    }

    /// Every mode, in the order the menu shows them.
    pub fn all_modes() -> (r: Vec<Mode>)
        ensures
            r@ == seq![Mode::Traditional, Mode::Bottle, Mode::Ring],
    {
        vec![Mode::Traditional, Mode::Bottle, Mode::Ring]
    }

    /// The name shown in menus.
    pub open spec fn name_spec(self) -> Seq<char> {
        match self {
            Mode::Traditional => "Traditional game"@,
            Mode::Bottle => "Bottle game"@,
            Mode::Ring => "Ring game"@,
        }
    }

    /// The name shown in menus.
    pub fn name(self) -> (r: &'static str)
        ensures
            r@ == self.name_spec(),
    {
        match self {
            Mode::Traditional => "Traditional game",
            Mode::Bottle => "Bottle game",
            Mode::Ring => "Ring game",
        }
    }

    /// How many players fit in a game of this mode.
    #[verifier::when_used_as_spec(spec_max_players)]
    pub fn max_players(self) -> (r: usize)
        ensures
            r == self.spec_max_players(),
    {
        match self {
            Mode::Traditional | Mode::Bottle => MAX_CLIENTS_PER_LOBBY,
            Mode::Ring => 4,
        }
    }
}

/// Row `y` of the picture of one player's part of a bottle game (the "x" cells are inside).
pub open spec fn bottle_map_spec(y: int) -> Seq<char> {
    if y < 4 {
        r"    |xxxxxxxxxx|    "@
    } else if y == 4 {
        r"    /xxxxxxxxxx\    "@
    } else if y == 5 {
        r"   /.xxxxxxxxxx.\   "@
    } else if y == 6 {
        r"  /xxxxxxxxxxxxxx\  "@
    } else if y == 7 {
        r" /.xxxxxxxxxxxxxx.\ "@
    } else if y == 8 {
        r"/xxxxxxxxxxxxxxxxxx\"@
    } else {
        r"|xxxxxxxxxxxxxxxxxx|"@
    }
}

/// The picture of one player's part of a bottle game (the "x" cells are inside).
pub fn bottle_map_row(y: usize) -> (r: &'static str)
    requires
        y < 21,
    ensures
        r@.len() == 20,
        r@ == bottle_map_spec(y as int),
{
    if y < 4 {
        proof {
            reveal_strlit(r"    |xxxxxxxxxx|    ");
        }
        r"    |xxxxxxxxxx|    "
    } else if y == 4 {
        proof {
            reveal_strlit(r"    /xxxxxxxxxx\    ");
        }
        r"    /xxxxxxxxxx\    "
    } else if y == 5 {
        proof {
            reveal_strlit(r"   /.xxxxxxxxxx.\   ");
        }
        r"   /.xxxxxxxxxx.\   "
    } else if y == 6 {
        proof {
            reveal_strlit(r"  /xxxxxxxxxxxxxx\  ");
        }
        r"  /xxxxxxxxxxxxxx\  "
    } else if y == 7 {
        proof {
            reveal_strlit(r" /.xxxxxxxxxxxxxx.\ ");
        }
        r" /.xxxxxxxxxxxxxx.\ "
    } else if y == 8 {
        proof {
            reveal_strlit(r"/xxxxxxxxxxxxxxxxxx\");
        }
        r"/xxxxxxxxxxxxxxxxxx\"
    } else {
        proof {
            reveal_strlit(r"|xxxxxxxxxxxxxxxxxx|");
        }
        r"|xxxxxxxxxxxxxxxxxx|"
    }
}

/// Width of the area inside one bottle, and with the wall between two bottles.
pub const BOTTLE_INNER_WIDTH: usize = 9;

pub const BOTTLE_OUTER_WIDTH: usize = 10;

/// Rows above the wide "|" area.
pub const BOTTLE_PERSONAL_SPACE_HEIGHT: usize = 9;

/// Number of rows in a bottle game.
pub const BOTTLE_HEIGHT: usize = 21;

/// How far the outermost ring is from the center, and the hole in the middle.
pub const RING_OUTER_RADIUS: usize = 18;

pub const RING_INNER_RADIUS: usize = 3;

/// The first column of the inside of a bottle on row `y` (the bottle narrows near the top).
pub open spec fn bottle_left(y: int) -> int {
    if y <= 5 {
        2
    } else if y <= 7 {
        1
    } else {
        0
    }
}

/// Whether a cell of a bottle game is inside a bottle or on a wall between two bottles,
/// where the wall is a valid place only below the personal spaces.
pub open spec fn bottle_valid(width: int, height: int, x: int, y: int) -> bool {
    &&& 0 <= x < width
    &&& 0 <= y < height
    &&& if x % 10 == 9 {
        y >= 9
    } else {
        bottle_left(y) <= x % 10 < 9 - bottle_left(y)
    }
}

pub open spec fn abs(x: int) -> int {
    if x < 0 {
        -x
    } else {
        x
    }
}

pub open spec fn max(a: int, b: int) -> int {
    if a < b {
        b
    } else {
        a
    }
}

/// Whether a world point is inside the ring: at most 18 from the center in both directions,
/// outside the 7x7 hole in the middle, with the corners cut off.
pub open spec fn ring_valid(x: int, y: int) -> bool {
    &&& max(abs(x), abs(y)) <= 18
    &&& max(abs(x), abs(y)) > 3
    &&& abs(x) + abs(y) <= 29
}

/// The picture of the ring map, row `y` (0 to 38); the "x" cells are inside.
pub open spec fn ring_map_spec(y: int) -> Seq<char> {
    if y == 0 {
        "               .o------------------------------------------o.               "@
    } else if y == 1 {
        "             .'xxxxxxxxxxxxxxxxxxxxxxxxxxxxxxxxxxxxxxxxxxxxxx'.             "@
    } else if y == 2 {
        "           .'xxxxxxxxxxxxxxxxxxxxxxxxxxxxxxxxxxxxxxxxxxxxxxxxxx'.           "@
    } else if y == 3 {
        "         .'xxxxxxxxxxxxxxxxxxxxxxxxxxxxxxxxxxxxxxxxxxxxxxxxxxxxxx'.         "@
    } else if y == 4 {
        "       .'xxxxxxxxxxxxxxxxxxxxxxxxxxxxxxxxxxxxxxxxxxxxxxxxxxxxxxxxxx'.       "@
    } else if y == 5 {
        "     .'xxxxxxxxxxxxxxxxxxxxxxxxxxxxxxxxxxxxxxxxxxxxxxxxxxxxxxxxxxxxxx'.     "@
    } else if y == 6 {
        "   .'xxxxxxxxxxxxxxxxxxxxxxxxxxxxxxxxxxxxxxxxxxxxxxxxxxxxxxxxxxxxxxxxxx'.   "@
    } else if y == 7 {
        " .'xxxxxxxxxxxxxxxxxxxxxxxxxxxxxxxxxxxxxxxxxxxxxxxxxxxxxxxxxxxxxxxxxxxxxx'. "@
    } else if y == 8 || y == 30 {
        "oxxxxxxxxxxxxxxxxxxxxxxxxxxxxxxxxxxxxxxxxxxxxxxxxxxxxxxxxxxxxxxxxxxxxxxxxxxo"@
    } else if y == 16 {
        "|xxxxxxxxxxxxxxxxxxxxxxxxxxxxxxo============oxxxxxxxxxxxxxxxxxxxxxxxxxxxxxx|"@
    } else if y == 17 {
        "|xxxxxxxxxxxxxxxxxxxxxxxxxxxxxx|wwwwwwwwwwww|xxxxxxxxxxxxxxxxxxxxxxxxxxxxxx|"@
    } else if 18 <= y <= 20 {
        "|xxxxxxxxxxxxxxxxxxxxxxxxxxxxxx|aaaaaadddddd|xxxxxxxxxxxxxxxxxxxxxxxxxxxxxx|"@
    } else if y == 21 {
        "|xxxxxxxxxxxxxxxxxxxxxxxxxxxxxx|ssssssssssss|xxxxxxxxxxxxxxxxxxxxxxxxxxxxxx|"@
    } else if y == 22 {
        "|xxxxxxxxxxxxxxxxxxxxxxxxxxxxxxo------------oxxxxxxxxxxxxxxxxxxxxxxxxxxxxxx|"@
    } else if y < 30 {
        "|xxxxxxxxxxxxxxxxxxxxxxxxxxxxxxxxxxxxxxxxxxxxxxxxxxxxxxxxxxxxxxxxxxxxxxxxxx|"@
    } else if y == 31 {
        " '.xxxxxxxxxxxxxxxxxxxxxxxxxxxxxxxxxxxxxxxxxxxxxxxxxxxxxxxxxxxxxxxxxxxxxx.' "@
    } else if y == 32 {
        "   '.xxxxxxxxxxxxxxxxxxxxxxxxxxxxxxxxxxxxxxxxxxxxxxxxxxxxxxxxxxxxxxxxxx.'   "@
    } else if y == 33 {
        "     '.xxxxxxxxxxxxxxxxxxxxxxxxxxxxxxxxxxxxxxxxxxxxxxxxxxxxxxxxxxxxxx.'     "@
    } else if y == 34 {
        "       '.xxxxxxxxxxxxxxxxxxxxxxxxxxxxxxxxxxxxxxxxxxxxxxxxxxxxxxxxxx.'       "@
    } else if y == 35 {
        "         '.xxxxxxxxxxxxxxxxxxxxxxxxxxxxxxxxxxxxxxxxxxxxxxxxxxxxxx.'         "@
    } else if y == 36 {
        "           '.xxxxxxxxxxxxxxxxxxxxxxxxxxxxxxxxxxxxxxxxxxxxxxxxxx.'           "@
    } else if y == 37 {
        "             '.xxxxxxxxxxxxxxxxxxxxxxxxxxxxxxxxxxxxxxxxxxxxxx.'             "@
    } else {
        "               'o------------------------------------------o'               "@
    }
}


/// The picture of the ring map, row `y` (0 to 38); the "x" cells are inside.
pub fn ring_map_row(y: usize) -> (r: &'static str)
    requires
        y < 39,
    ensures
        r@ == ring_map_spec(y as int),
{
    if y == 0 {
        "               .o------------------------------------------o.               "
    } else if y == 1 {
        "             .'xxxxxxxxxxxxxxxxxxxxxxxxxxxxxxxxxxxxxxxxxxxxxx'.             "
    } else if y == 2 {
        "           .'xxxxxxxxxxxxxxxxxxxxxxxxxxxxxxxxxxxxxxxxxxxxxxxxxx'.           "
    } else if y == 3 {
        "         .'xxxxxxxxxxxxxxxxxxxxxxxxxxxxxxxxxxxxxxxxxxxxxxxxxxxxxx'.         "
    } else if y == 4 {
        "       .'xxxxxxxxxxxxxxxxxxxxxxxxxxxxxxxxxxxxxxxxxxxxxxxxxxxxxxxxxx'.       "
    } else if y == 5 {
        "     .'xxxxxxxxxxxxxxxxxxxxxxxxxxxxxxxxxxxxxxxxxxxxxxxxxxxxxxxxxxxxxx'.     "
    } else if y == 6 {
        "   .'xxxxxxxxxxxxxxxxxxxxxxxxxxxxxxxxxxxxxxxxxxxxxxxxxxxxxxxxxxxxxxxxxx'.   "
    } else if y == 7 {
        " .'xxxxxxxxxxxxxxxxxxxxxxxxxxxxxxxxxxxxxxxxxxxxxxxxxxxxxxxxxxxxxxxxxxxxxx'. "
    } else if y == 8 || y == 30 {
        "oxxxxxxxxxxxxxxxxxxxxxxxxxxxxxxxxxxxxxxxxxxxxxxxxxxxxxxxxxxxxxxxxxxxxxxxxxxo"
    } else if y == 16 {
        "|xxxxxxxxxxxxxxxxxxxxxxxxxxxxxxo============oxxxxxxxxxxxxxxxxxxxxxxxxxxxxxx|"
    } else if y == 17 {
        "|xxxxxxxxxxxxxxxxxxxxxxxxxxxxxx|wwwwwwwwwwww|xxxxxxxxxxxxxxxxxxxxxxxxxxxxxx|"
    } else if 18 <= y && y <= 20 {
        "|xxxxxxxxxxxxxxxxxxxxxxxxxxxxxx|aaaaaadddddd|xxxxxxxxxxxxxxxxxxxxxxxxxxxxxx|"
    } else if y == 21 {
        "|xxxxxxxxxxxxxxxxxxxxxxxxxxxxxx|ssssssssssss|xxxxxxxxxxxxxxxxxxxxxxxxxxxxxx|"
    } else if y == 22 {
        "|xxxxxxxxxxxxxxxxxxxxxxxxxxxxxxo------------oxxxxxxxxxxxxxxxxxxxxxxxxxxxxxx|"
    } else if y < 30 {
        "|xxxxxxxxxxxxxxxxxxxxxxxxxxxxxxxxxxxxxxxxxxxxxxxxxxxxxxxxxxxxxxxxxxxxxxxxxx|"
    } else if y == 31 {
        " '.xxxxxxxxxxxxxxxxxxxxxxxxxxxxxxxxxxxxxxxxxxxxxxxxxxxxxxxxxxxxxxxxxxxxxx.' "
    } else if y == 32 {
        "   '.xxxxxxxxxxxxxxxxxxxxxxxxxxxxxxxxxxxxxxxxxxxxxxxxxxxxxxxxxxxxxxxxxx.'   "
    } else if y == 33 {
        "     '.xxxxxxxxxxxxxxxxxxxxxxxxxxxxxxxxxxxxxxxxxxxxxxxxxxxxxxxxxxxxxx.'     "
    } else if y == 34 {
        "       '.xxxxxxxxxxxxxxxxxxxxxxxxxxxxxxxxxxxxxxxxxxxxxxxxxxxxxxxxxx.'       "
    } else if y == 35 {
        "         '.xxxxxxxxxxxxxxxxxxxxxxxxxxxxxxxxxxxxxxxxxxxxxxxxxxxxxx.'         "
    } else if y == 36 {
        "           '.xxxxxxxxxxxxxxxxxxxxxxxxxxxxxxxxxxxxxxxxxxxxxxxxxx.'           "
    } else if y == 37 {
        "             '.xxxxxxxxxxxxxxxxxxxxxxxxxxxxxxxxxxxxxxxxxxxxxx.'             "
    } else {
        "               'o------------------------------------------o'               "
    }
}

/// In ring mode, y coordinates below the ring continue from the top
/// (only positive values are moved).
pub open spec fn wrap_around_spec(mode: Mode, y: int) -> int {
    if mode == Mode::Ring && y > 0 {
        (y + 18) % 37 - 18
    } else {
        y
    }
}

/// Moves a y coordinate below the ring back to the top in ring mode (see `wrap_around_spec`).
pub fn wrap_around(mode: Mode, y: &mut i32)
    requires
        mode == Mode::Ring && *old(y) > 0 ==> *old(y) <= i32::MAX - 18,
    ensures
        *final(y) == wrap_around_spec(mode, *old(y) as int),
{
    if mode == Mode::Ring && *y > 0 {
        *y = *y + RING_OUTER_RADIUS as i32;
        *y = *y % (2 * RING_OUTER_RADIUS + 1) as i32;
        *y = *y - RING_OUTER_RADIUS as i32;
    }
}

/// The width of each player's area in a traditional game: narrower when several play.
pub open spec fn width_per_player_spec(player_count: int) -> int {
    if player_count >= 2 {
        7
    } else {
        10
    }
}

/// The width of the playing area.
pub open spec fn width_spec(mode: Mode, player_count: int) -> int {
    match mode {
        Mode::Traditional => width_per_player_spec(player_count) * player_count,
        Mode::Bottle => if player_count == 0 {
            0
        } else {
            10 * player_count - 1
        },
        Mode::Ring => 37,
    }
}

/// The landed squares sit in rows of the array; this is where world point (0, 0) is.
pub open spec fn center_offset(mode: Mode) -> (int, int) {
    match mode {
        Mode::Ring => (18, 18),
        _ => (0, 0),
    }
}

/// Whether a world point is inside the playing area.
pub open spec fn valid_landed_spec(mode: Mode, width: int, height: int, p: WorldPoint) -> bool {
    match mode {
        Mode::Traditional => 0 <= p.0 < width && 0 <= p.1 < height,
        Mode::Bottle => bottle_valid(width, height, p.0 as int, p.1 as int),
        Mode::Ring => ring_valid(p.0 as int, p.1 as int),
    }
}

/// The world points of a player's falling block, in the order of its squares.
pub open spec fn block_world_points(player: Player) -> Seq<WorldPoint> {
    player.block_or_timer.spec_coords().map_values(
        |q: PlayerPoint| player_to_world_spec(player.down_direction, q),
    )
}

/// The first index of `point` in `points`, if it is there.
pub open spec fn first_index(points: Seq<WorldPoint>, point: WorldPoint) -> Option<int>
    decreases points.len(),
{
    if points.len() == 0 {
        None
    } else {
        match first_index(points.drop_last(), point) {
            Some(k) => Some(k),
            None => if points.last() == point {
                Some(points.len() - 1)
            } else {
                None
            },
        }
    }
}

/// The falling square at `point`, of the first player (not `exclude`) whose block covers it:
/// its content, its place relative to the block's center and the player's index.
pub open spec fn falling_square_spec(
    players: Seq<Player>,
    point: WorldPoint,
    exclude: Option<usize>,
) -> Option<(SquareContent, BlockRelativeCoords, usize)>
    decreases players.len(),
{
    if players.len() == 0 {
        None
    } else {
        let earlier = falling_square_spec(players.drop_last(), point, exclude);
        let i = players.len() - 1;
        let player = players.last();
        if earlier is Some {
            earlier
        } else if exclude == Some(i as usize) {
            None
        } else {
            match player.block_or_timer {
                BlockOrTimer::Block(b) => match first_index(block_world_points(player), point) {
                    Some(k) => Some((b.square_content, b.relative_coords@[k], i as usize)),
                    None => None,
                },
                _ => None,
            }
        }
    }
}

proof fn lemma_first_index_prefix(s: Seq<WorldPoint>, p: WorldPoint, n: int)
    requires
        0 <= n <= s.len(),
        first_index(s.take(n), p) is Some,
    ensures
        first_index(s, p) == first_index(s.take(n), p),
    decreases s.len() - n,
{
    if n < s.len() {
        assert(s.drop_last().take(n) =~= s.take(n));
        lemma_first_index_prefix(s.drop_last(), p, n);
    } else {
        assert(s.take(n) =~= s);
    }
}

proof fn lemma_falling_square_prefix(players: Seq<Player>, p: WorldPoint, exclude: Option<usize>, n: int)
    requires
        0 <= n <= players.len(),
        falling_square_spec(players.take(n), p, exclude) is Some,
    ensures
        falling_square_spec(players, p, exclude) == falling_square_spec(players.take(n), p, exclude),
    decreases players.len() - n,
{
    if n < players.len() {
        assert(players.drop_last().take(n) =~= players.take(n));
        lemma_falling_square_prefix(players.drop_last(), p, exclude, n);
    } else {
        assert(players.take(n) =~= players);
    }
}

/// Whether every cell of `row` from `left` up to (not including) `right` has a square.
pub open spec fn full_between(row: Seq<Option<SquareContent>>, left: int, right: int) -> bool {
    forall|x: int| left <= x < right ==> #[trigger] row[x] is Some
}

/// The points of row `y` from `left` up to (not including) `right`, left to right.
pub open spec fn row_points(y: int, left: int, right: int) -> Seq<WorldPoint> {
    Seq::new((right - left) as nat, |k: int| ((left + k) as i16, y as i16))
}

/// The points of the full rows among the first `n` rows, top to bottom, and how many
/// rows are full.
pub open spec fn traditional_full(rows: Seq<Seq<Option<SquareContent>>>, width: int, n: int) -> (Seq<WorldPoint>, nat)
    decreases n,
{
    if n <= 0 {
        (Seq::empty(), 0)
    } else {
        let (points, count) = traditional_full(rows, width, n - 1);
        if full_between(rows[n - 1], 0, width) {
            (points + row_points(n - 1, 0, width), count + 1)
        } else {
            (points, count)
        }
    }
}

/// On a row of the personal spaces of a bottle game: the points of the first `m` players'
/// full parts of the row, and how many are full.
pub open spec fn bottle_personal_full(row: Seq<Option<SquareContent>>, y: int, m: int) -> (Seq<WorldPoint>, nat)
    decreases m,
{
    if m <= 0 {
        (Seq::empty(), 0)
    } else {
        let (points, count) = bottle_personal_full(row, y, m - 1);
        let left = 10 * (m - 1) + bottle_left(y);
        let right = left + 9 - 2 * bottle_left(y);
        if full_between(row, left, right) {
            (points + row_points(y, left, right), count + 1)
        } else {
            (points, count)
        }
    }
}

/// In a bottle game, for the first `n` rows: the full points, the number of full parts of
/// personal spaces, and the number of full rows shared by everyone.
pub open spec fn bottle_full(rows: Seq<Seq<Option<SquareContent>>>, width: int, player_count: int, n: int) -> (Seq<WorldPoint>, nat, nat)
    decreases n,
{
    if n <= 0 {
        (Seq::empty(), 0, 0)
    } else {
        let (points, single, everyone) = bottle_full(rows, width, player_count, n - 1);
        let y = n - 1;
        if y < 9 {
            let (more, count) = bottle_personal_full(rows[y], y, player_count);
            (points + more, single + count, everyone)
        } else if full_between(rows[y], 0, width) {
            (points + row_points(y, 0, width), single, everyone + 1)
        } else {
            (points, single, everyone)
        }
    }
}

/// The sides of the ring at distance `r` from the center, for the first `m` positions along
/// them (each position gives a point on the left, right, top and bottom side).
pub open spec fn ring_sides(r: int, m: int) -> Seq<WorldPoint>
    decreases m,
{
    if m <= 0 {
        Seq::empty()
    } else {
        let i = -r + m;
        ring_sides(r, m - 1) + seq![((-r) as i16, i as i16), (r as i16, i as i16), (i as i16, (-r) as i16), (i as i16, r as i16)]
    }
}

/// The points at distance `r` from the center: the four corners, then the sides.
pub open spec fn ring_points(r: int) -> Seq<WorldPoint> {
    seq![((-r) as i16, (-r) as i16), ((-r) as i16, r as i16), (r as i16, (-r) as i16), (r as i16, r as i16)] + ring_sides(r, 2 * r - 1)
}

/// Multiplier for rows cleared together by `n` players: 2 to the power `n - 1`.
pub open spec fn player_multiplier(n: nat) -> nat
    decreases n,
{
    if n <= 1 {
        1
    } else {
        2 * player_multiplier((n - 1) as nat)
    }
}

/// Points for clearing `k` rows: 10 for the first, 20 for the second, 30 for the third...
pub open spec fn clear_score(k: nat) -> nat {
    5 * k * (k + 1)
}

/// Whether every cell of `row` from `left` up to (not including) `right` has a square.
fn row_is_full(row: &Vec<Option<SquareContent>>, left: usize, right: usize) -> (r: bool)
    requires
        left <= right <= row@.len(),
    ensures
        r == full_between(row@, left as int, right as int),
{
    let mut x = left;
    while x < right
        invariant
            left <= x <= right <= row@.len(),
            forall|j: int| left <= j < x ==> #[trigger] row@[j] is Some,
        decreases right - x,
    {
        if row[x].is_none() {
            return false;
        }
        x = x + 1;
    }
    true
}

/// Appends the points of row `y` from `left` up to (not including) `right`.
fn push_row_points(points: &mut Vec<WorldPoint>, y: usize, left: usize, right: usize)
    requires
        left <= right <= 1000,
        y <= 1000,
    ensures
        final(points)@ == old(points)@ + row_points(y as int, left as int, right as int),
{
    let ghost start = points@;
    let mut x = left;
    while x < right
        invariant
            left <= x <= right <= 1000,
            y <= 1000,
            points@ == start + row_points(y as int, left as int, x as int),
        decreases right - x,
    {
        points.push((x as i16, y as i16));
        proof {
            assert(start + row_points(y as int, left as int, x + 1) =~= (start + row_points(y as int, left as int, x as int)).push((x as i16, y as i16)));
        }
        x = x + 1;
    }
}

/// The points at distance `r` from the center (see `ring_points`).
fn ring_points_exec(r: i16) -> (points: Vec<WorldPoint>)
    requires
        1 <= r <= 100,
    ensures
        points@ == ring_points(r as int),
{
    let minus_r = -r;
    let mut points: Vec<WorldPoint> = vec![(minus_r, minus_r), (minus_r, r), (r, minus_r), (r, r)];
    let ghost corners = points@;
    let mut m: i16 = 1;
    while m < 2 * r
        invariant
            1 <= r <= 100,
            1 <= m <= 2 * r,
            corners == seq![((-r) as i16, (-r) as i16), ((-r) as i16, r as i16), (r as i16, (-r) as i16), (r as i16, r as i16)],
            points@ == corners + ring_sides(r as int, m - 1),
        decreases 2 * r - m,
    {
        let i = -r + m;
        points.push((-r, i));
        points.push((r, i));
        points.push((i, -r));
        points.push((i, r));
        proof {
            assert(corners + ring_sides(r as int, m as int) =~= corners + ring_sides(r as int, m - 1) + seq![((-r) as i16, i as i16), (r as i16, i as i16), (i as i16, (-r) as i16), (i as i16, r as i16)]);
        }
        m = m + 1;
    }
    points
}

proof fn lemma_ring_points_in_range(r: int, k: int)
    requires
        4 <= r <= 18,
        0 <= k < ring_points(r).len(),
    ensures
        -18 <= ring_points(r)[k].0 <= 18,
        -18 <= ring_points(r)[k].1 <= 18,
        ring_points(r).len() == 8 * r,
{
    lemma_ring_sides(r, 2 * r - 1);
    if k >= 4 {
        assert(ring_points(r)[k] == ring_sides(r, 2 * r - 1)[k - 4]);
    }
}

proof fn lemma_ring_sides(r: int, m: int)
    requires
        4 <= r <= 18,
        0 <= m <= 2 * r - 1,
    ensures
        ring_sides(r, m).len() == 4 * m,
        forall|k: int| 0 <= k < 4 * m ==> -18 <= #[trigger] ring_sides(r, m)[k].0 <= 18 && -18 <= ring_sides(r, m)[k].1 <= 18,
    decreases m,
{
    if m > 0 {
        lemma_ring_sides(r, m - 1);
        assert forall|k: int| 0 <= k < 4 * m implies -18 <= #[trigger] ring_sides(r, m)[k].0 <= 18 && -18 <= ring_sides(r, m)[k].1 <= 18 by {
            if k < 4 * (m - 1) {
                assert(ring_sides(r, m)[k] == ring_sides(r, m - 1)[k]);
            }
        }
    }
}

/// The entries among the first `n` whose index is not marked, in order.
pub open spec fn kept<T>(s: Seq<T>, marked: spec_fn(int) -> bool, n: int) -> Seq<T>
    decreases n,
{
    if n <= 0 {
        Seq::empty()
    } else if marked(n - 1) {
        kept(s, marked, n - 1)
    } else {
        kept(s, marked, n - 1).push(s[n - 1])
    }
}

/// How many of the first `n` indexes are marked.
pub open spec fn removed_count(marked: spec_fn(int) -> bool, n: int) -> nat
    decreases n,
{
    if n <= 0 {
        0
    } else if marked(n - 1) {
        removed_count(marked, n - 1) + 1
    } else {
        removed_count(marked, n - 1)
    }
}

/// Removes the marked entries among the first `n`, the entries above them move down, and
/// blank entries fill the top: as many blanks as removed entries, then the kept entries
/// in order, then the rest unchanged.
pub open spec fn shift_down<T>(s: Seq<T>, marked: spec_fn(int) -> bool, n: int, blank: T) -> Seq<T> {
    Seq::new(removed_count(marked, n), |i: int| blank) + kept(s, marked, n) + s.skip(n)
}

proof fn lemma_kept_len<T>(s: Seq<T>, marked: spec_fn(int) -> bool, n: int)
    requires
        0 <= n <= s.len(),
    ensures
        kept(s, marked, n).len() + removed_count(marked, n) == n,
    decreases n,
{
    if n > 0 {
        lemma_kept_len(s, marked, n - 1);
    }
}

proof fn lemma_shift_step<T>(s: Seq<T>, marked: spec_fn(int) -> bool, n: int, blank: T)
    requires
        0 <= n < s.len(),
    ensures
        shift_down(s, marked, n, blank).len() == s.len(),
        shift_down(s, marked, n, blank)[n] == s[n],
        marked(n) ==> shift_down(s, marked, n + 1, blank) == shift_down(s, marked, n, blank).remove(n).insert(0, blank),
        !marked(n) ==> shift_down(s, marked, n + 1, blank) == shift_down(s, marked, n, blank),
{
    lemma_kept_len(s, marked, n);
    let c = removed_count(marked, n);
    let k = kept(s, marked, n);
    let state = shift_down(s, marked, n, blank);
    assert(state[n] == s.skip(n)[0]);
    if marked(n) {
        assert(shift_down(s, marked, n + 1, blank) =~= state.remove(n).insert(0, blank));
    } else {
        assert(shift_down(s, marked, n + 1, blank) =~= state);
    }
}

proof fn lemma_shift_start<T>(s: Seq<T>, marked: spec_fn(int) -> bool, blank: T)
    ensures
        shift_down(s, marked, 0, blank) == s,
{
    assert(shift_down(s, marked, 0, blank) =~= s);
}

/// A row without squares.
pub open spec fn blank_row(width: int) -> Seq<Option<SquareContent>> {
    Seq::new(width as nat, |x: int| None)
}

/// The cells of column `x` in the first `n` rows, top to bottom.
pub open spec fn column(rows: Seq<Seq<Option<SquareContent>>>, x: int, n: int) -> Seq<Option<SquareContent>> {
    Seq::new(n as nat, |y: int| rows[y][x])
}

/// The rows of a traditional game after removing the rows marked full (by their leftmost
/// point): the rows above move down and empty rows appear at the top.
pub open spec fn traditional_removed(rows: Seq<Seq<Option<SquareContent>>>, full: Seq<WorldPoint>, width: int) -> Seq<Seq<Option<SquareContent>>> {
    shift_down(rows, row_marked(full, 0), rows.len() as int, blank_row(width))
}

/// Whether a row at or below `first_y` is marked full (by its leftmost point).
pub open spec fn row_marked(full: Seq<WorldPoint>, first_y: int) -> spec_fn(int) -> bool {
    |y: int| y >= first_y && full.contains((0i16, y as i16))
}

/// Whether a personal-space row of player `i` is marked full (by its middle point).
pub open spec fn personal_marked(full: Seq<WorldPoint>, i: int) -> spec_fn(int) -> bool {
    |y: int| full.contains(((10 * i + 4) as i16, y as i16))
}

/// The rows of a bottle game after removing the full rows: first each player's marked
/// personal-space rows, where only that player's squares move down, then the marked shared
/// rows below, where everything above moves down.
pub open spec fn bottle_removed(rows: Seq<Seq<Option<SquareContent>>>, full: Seq<WorldPoint>, width: int) -> Seq<Seq<Option<SquareContent>>> {
    shift_down(bottle_personal_removed(rows, full), row_marked(full, 9), rows.len() as int, blank_row(width))
}

/// A bottle game's rows after the marked personal-space rows are removed: in each player's
/// part of the personal spaces, the squares above a removed row move down.
pub open spec fn bottle_personal_removed(rows: Seq<Seq<Option<SquareContent>>>, full: Seq<WorldPoint>) -> Seq<Seq<Option<SquareContent>>> {
    Seq::new(rows.len(), |y: int| Seq::new(rows[y].len(), |x: int|
        if y < 9 && x % 10 < 9 {
            shift_down(column(rows, x, 9), personal_marked(full, x / 10), 9, None)[y]
        } else {
            rows[y][x]
        }))
}

/// The landed square at world point (x, y) of a ring game.
pub open spec fn ring_at(rows: Seq<Seq<Option<SquareContent>>>, x: int, y: int) -> Option<SquareContent> {
    rows[y + 18][x + 18]
}

/// `b` if it is a square, otherwise `a`: a later move of nothing does not overwrite.
pub open spec fn later(a: Option<SquareContent>, b: Option<SquareContent>) -> Option<SquareContent> {
    if b is Some {
        b
    } else {
        a
    }
}

/// After ring `r` of a ring game is removed, each ring outside it moves one step inwards.
/// Inner rings stay; the outermost ring becomes empty. A side square comes from the square
/// just outside it; a corner gets the last square moved there, the corner itself going last.
pub open spec fn collapse_value(rows: Seq<Seq<Option<SquareContent>>>, r: int, x: int, y: int) -> Option<SquareContent> {
    let d = max(abs(x), abs(y));
    let s = d + 1;
    if d < r {
        ring_at(rows, x, y)
    } else if d >= 18 {
        None
    } else if x == -d && y == -d {
        later(later(ring_at(rows, -s, -d), ring_at(rows, -d, -s)), ring_at(rows, -s, -s))
    } else if x == -d && y == d {
        later(later(ring_at(rows, -d, s), ring_at(rows, -s, d)), ring_at(rows, -s, s))
    } else if x == d && y == -d {
        later(later(ring_at(rows, s, -d), ring_at(rows, d, -s)), ring_at(rows, s, -s))
    } else if x == d && y == d {
        later(later(ring_at(rows, s, d), ring_at(rows, d, s)), ring_at(rows, s, s))
    } else if x == -d {
        ring_at(rows, -s, y)
    } else if x == d {
        ring_at(rows, s, y)
    } else if y == -d {
        ring_at(rows, x, -s)
    } else {
        ring_at(rows, x, s)
    }
}

/// The rows of a ring game after ring `r` is removed (see `collapse_value`).
pub open spec fn collapse(rows: Seq<Seq<Option<SquareContent>>>, r: int) -> Seq<Seq<Option<SquareContent>>> {
    Seq::new(37, |yy: int| Seq::new(37, |xx: int| collapse_value(rows, r, xx - 18, yy - 18)))
}

/// How many of the points are at distance `r` from the center.
pub open spec fn radius_count(points: Seq<WorldPoint>, r: int) -> nat
    decreases points.len(),
{
    if points.len() == 0 {
        0
    } else {
        let p = points.last();
        radius_count(points.drop_last(), r) + if max(abs(p.0 as int), abs(p.1 as int)) == r { 1nat } else { 0 }
    }
}

/// The rows of a ring game after removing, from the outside in, each ring from 18 down to
/// `k` with as many points in `full` as the ring has.
pub open spec fn ring_collapses(rows: Seq<Seq<Option<SquareContent>>>, full: Seq<WorldPoint>, k: int) -> Seq<Seq<Option<SquareContent>>>
    decreases 19 - k,
{
    if k >= 19 {
        rows
    } else {
        let after = ring_collapses(rows, full, k + 1);
        if radius_count(full, k) == 8 * k {
            collapse(after, k)
        } else {
            after
        }
    }
}

/// The rows with every point of `points` emptied (array place = world point + offset).
pub open spec fn rows_without(rows: Seq<Seq<Option<SquareContent>>>, points: Seq<WorldPoint>, offset: (int, int)) -> Seq<Seq<Option<SquareContent>>> {
    Seq::new(rows.len(), |y: int| Seq::new(rows[y].len(), |x: int|
        if points.contains(((x - offset.0) as i16, (y - offset.1) as i16)) {
            None
        } else {
            rows[y][x]
        }))
}

/// Every square of `after` is empty or the square of `before` at the same place; both have
/// the same shape.
pub open spec fn rows_shrunk(before: Seq<Seq<Option<SquareContent>>>, after: Seq<Seq<Option<SquareContent>>>) -> bool {
    &&& after.len() == before.len()
    &&& forall|y: int| 0 <= y < before.len() ==> (#[trigger] after[y]).len() == before[y].len()
    &&& forall|y: int, x: int| 0 <= y < before.len() && 0 <= x < before[y].len() && (#[trigger] after[y][x]) is Some
        ==> after[y][x] == before[y][x]
}

proof fn lemma_rows_without_shrinks(before: Seq<Seq<Option<SquareContent>>>, after: Seq<Seq<Option<SquareContent>>>, offset: (int, int))
    requires
        exists|points: Seq<WorldPoint>| after == rows_without(before, points, offset),
    ensures
        rows_shrunk(before, after),
{
    let points = choose|points: Seq<WorldPoint>| after == rows_without(before, points, offset);
    assert forall|y: int| 0 <= y < before.len() implies (#[trigger] after[y]).len() == before[y].len() by {
        assert(after[y] == rows_without(before, points, offset)[y]);
    }
}

proof fn lemma_rows_shrunk_trans(a: Seq<Seq<Option<SquareContent>>>, b: Seq<Seq<Option<SquareContent>>>, c: Seq<Seq<Option<SquareContent>>>)
    requires
        rows_shrunk(a, b) || a == b,
        rows_shrunk(b, c) || b == c,
    ensures
        rows_shrunk(a, c),
{
    assert forall|y: int| 0 <= y < a.len() implies (#[trigger] c[y]).len() == a[y].len() by {
        assert(b[y].len() == a[y].len());
    }
    assert forall|y: int, x: int| 0 <= y < a.len() && 0 <= x < a[y].len() && (#[trigger] c[y][x]) is Some implies c[y][x] == a[y][x] by {
        assert(b[y].len() == a[y].len());
        assert(b[y][x] is Some);
    }
}

/// The world points of every player's falling block, player by player.
pub open spec fn falling_points(players: Seq<Player>) -> Seq<WorldPoint>
    decreases players.len(),
{
    if players.len() == 0 {
        Seq::empty()
    } else {
        falling_points(players.drop_last()) + block_world_points(players.last())
    }
}

/// The square of a small number.
fn square_small(d: i16) -> (r: i16)
    requires
        -4 <= d <= 4,
    ensures
        r == d * d,
        0 <= r <= 16,
{
    proof {
        assert(0 <= d * d <= 16) by (nonlinear_arith)
            requires -4 <= d <= 4;
    }
    d * d
}

/// Whether `p` is one of the points.
fn contains_point(points: &[WorldPoint], p: WorldPoint) -> (r: bool)
    ensures
        r == points@.contains(p),
{
    let mut k: usize = 0;
    while k < points.len()
        invariant
            k <= points@.len(),
            forall|j: int| 0 <= j < k ==> #[trigger] points@[j] != p,
        decreases points@.len() - k,
    {
        if points[k].0 == p.0 && points[k].1 == p.1 {
            proof {
                assert(points@[k as int] == p);
            }
            return true;
        }
        k = k + 1;
    }
    false
}

/// A row of `width` empty cells.
fn make_blank_row(width: usize) -> (r: Vec<Option<SquareContent>>)
    ensures
        r@ == blank_row(width as int),
{
    let mut r: Vec<Option<SquareContent>> = Vec::new();
    for x in 0..width
        invariant
            r@ == blank_row(x as int),
    {
        r.push(None);
        proof {
            assert(r@ =~= blank_row(x + 1));
        }
    }
    r
}

/// The landed square at world point (x, y) of a ring game.
fn ring_cell(rows: &Vec<Vec<Option<SquareContent>>>, x: i16, y: i16) -> (r: Option<SquareContent>)
    requires
        rows@.len() == 37,
        forall|k: int| 0 <= k < 37 ==> #[trigger] rows@[k]@.len() == 37,
        -18 <= x <= 18,
        -18 <= y <= 18,
    ensures
        r == ring_at(rows@.map_values(|row: Vec<Option<SquareContent>>| row@), x as int, y as int),
{
    rows[(y + 18) as usize][(x + 18) as usize]
}

/// `b` if it is a square, otherwise `a`.
fn later_exec(a: Option<SquareContent>, b: Option<SquareContent>) -> (r: Option<SquareContent>)
    ensures
        r == later(a, b),
{
    if b.is_some() {
        b
    } else {
        a
    }
}

/// The square at (x, y) after ring `r` is removed (see `collapse_value`).
fn collapse_value_exec(rows: &Vec<Vec<Option<SquareContent>>>, r: i16, x: i16, y: i16) -> (v: Option<SquareContent>)
    requires
        rows@.len() == 37,
        forall|k: int| 0 <= k < 37 ==> #[trigger] rows@[k]@.len() == 37,
        1 <= r <= 18,
        -18 <= x <= 18,
        -18 <= y <= 18,
    ensures
        v == collapse_value(rows@.map_values(|row: Vec<Option<SquareContent>>| row@), r as int, x as int, y as int),
{
    let ax = if x < 0 { -x } else { x };
    let ay = if y < 0 { -y } else { y };
    let d = if ax < ay { ay } else { ax };
    let s = d + 1;
    if d < r {
        ring_cell(rows, x, y)
    } else if d >= 18 {
        None
    } else if x == -d && y == -d {
        later_exec(later_exec(ring_cell(rows, -s, -d), ring_cell(rows, -d, -s)), ring_cell(rows, -s, -s))
    } else if x == -d && y == d {
        later_exec(later_exec(ring_cell(rows, -d, s), ring_cell(rows, -s, d)), ring_cell(rows, -s, s))
    } else if x == d && y == -d {
        later_exec(later_exec(ring_cell(rows, s, -d), ring_cell(rows, d, -s)), ring_cell(rows, s, -s))
    } else if x == d && y == d {
        later_exec(later_exec(ring_cell(rows, s, d), ring_cell(rows, d, s)), ring_cell(rows, s, s))
    } else if x == -d {
        ring_cell(rows, -s, y)
    } else if x == d {
        ring_cell(rows, s, y)
    } else if y == -d {
        ring_cell(rows, x, -s)
    } else {
        ring_cell(rows, x, s)
    }
}

/// The rows of a ring game after ring `r` is removed (see `collapse`).
fn collapse_ring(rows: &Vec<Vec<Option<SquareContent>>>, r: i16) -> (new_rows: Vec<Vec<Option<SquareContent>>>)
    requires
        rows@.len() == 37,
        forall|k: int| 0 <= k < 37 ==> #[trigger] rows@[k]@.len() == 37,
        1 <= r <= 18,
    ensures
        new_rows@.len() == 37,
        forall|k: int| 0 <= k < 37 ==> #[trigger] new_rows@[k]@.len() == 37,
        new_rows@.map_values(|row: Vec<Option<SquareContent>>| row@) == collapse(rows@.map_values(|row: Vec<Option<SquareContent>>| row@), r as int),
{
    let ghost old_rows = rows@.map_values(|row: Vec<Option<SquareContent>>| row@);
    let mut new_rows: Vec<Vec<Option<SquareContent>>> = Vec::new();
    let mut yy: usize = 0;
    while yy < 37
        invariant
            yy <= 37,
            rows@.len() == 37,
            forall|k: int| 0 <= k < 37 ==> #[trigger] rows@[k]@.len() == 37,
            1 <= r <= 18,
            old_rows == rows@.map_values(|row: Vec<Option<SquareContent>>| row@),
            new_rows@.len() == yy,
            forall|k: int| 0 <= k < yy ==> #[trigger] new_rows@[k]@ == collapse(old_rows, r as int)[k],
        decreases 37 - yy,
    {
        let mut row: Vec<Option<SquareContent>> = Vec::new();
        let mut xx: usize = 0;
        while xx < 37
            invariant
                xx <= 37,
                yy < 37,
                rows@.len() == 37,
                forall|k: int| 0 <= k < 37 ==> #[trigger] rows@[k]@.len() == 37,
                1 <= r <= 18,
                old_rows == rows@.map_values(|row: Vec<Option<SquareContent>>| row@),
                row@.len() == xx,
                forall|j: int| 0 <= j < xx ==> #[trigger] row@[j] == collapse_value(old_rows, r as int, j - 18, yy - 18),
            decreases 37 - xx,
        {
            row.push(collapse_value_exec(rows, r, xx as i16 - 18, yy as i16 - 18));
            xx = xx + 1;
        }
        proof {
            assert(row@ =~= collapse(old_rows, r as int)[yy as int]);
        }
        new_rows.push(row);
        yy = yy + 1;
    }
    proof {
        assert(new_rows@.map_values(|row: Vec<Option<SquareContent>>| row@) =~= collapse(old_rows, r as int));
    }
    new_rows
}

/// The two players are the same apart from their falling blocks (or timers).
pub open spec fn same_except_block(p: Player, q: Player) -> bool {
    &&& p.client_id == q.client_id
    &&& p.name == q.name
    &&& p.color == q.color
    &&& p.spawn_point == q.spawn_point
    &&& p.next_block == q.next_block
    &&& p.block_in_hold == q.block_in_hold
    &&& p.fast_down == q.fast_down
    &&& p.down_direction == q.down_direction
}

/// `b` is `a` turned once (see `FallingBlock::rotate`).
pub open spec fn is_rotated(a: FallingBlock, b: FallingBlock, prefer_counter_clockwise: bool) -> bool {
    &&& b.relative_coords@ == crate::game_logic::blocks::rotated_relative(a.relative_coords@, a.rotate_mode, prefer_counter_clockwise)
    &&& b.rotate_mode == crate::game_logic::blocks::next_rotate_mode(a.rotate_mode)
    &&& b.center == a.center
    &&& b.square_content == a.square_content
    &&& b.has_been_in_hold == a.has_been_in_hold
}

/// `b` is `a` placed at a spawn point (see `FallingBlock::spawn_at`).
pub open spec fn is_spawned(a: FallingBlock, b: FallingBlock, spawn_point: PlayerPoint) -> bool {
    &&& b.center == spawn_center(a, spawn_point)
    &&& b.relative_coords@ == a.relative_coords@
    &&& b.rotate_mode == a.rotate_mode
    &&& b.has_been_in_hold == a.has_been_in_hold
    &&& b.square_content == match a.square_content {
        SquareContent::Bomb { timer, .. } => SquareContent::Bomb { timer, id: None },
        other => other,
    }
}

/// Where the center of a block goes when it spawns: its lowest square just above the point.
pub open spec fn spawn_center(a: FallingBlock, spawn_point: PlayerPoint) -> PlayerPoint {
    (spawn_point.0, (spawn_point.1 - (FallingBlock::lowest_relative_y(a.relative_coords@) + 1)) as i32)
}

proof fn lemma_falling_square_frame(ps1: Seq<Player>, ps2: Seq<Player>, p: WorldPoint, i: int)
    requires
        ps1.len() == ps2.len(),
        forall|j: int| 0 <= j < ps1.len() && j != i ==> ps1[j] == ps2[j],
    ensures
        falling_square_spec(ps1, p, Some(i as usize)) == falling_square_spec(ps2, p, Some(i as usize)),
    decreases ps1.len(),
{
    if ps1.len() > 0 {
        lemma_falling_square_frame(ps1.drop_last(), ps2.drop_last(), p, i);
        if ps1.len() - 1 != i {
            assert(ps1.last() == ps2.last());
        }
    }
}

/// The relative coordinates among the first `n` squares of a block (of a player going in
/// direction `down`) whose world points are not in `points`.
pub open spec fn kept_squares(b: FallingBlock, down: WorldPoint, points: Seq<WorldPoint>, n: int) -> Seq<BlockRelativeCoords>
    decreases n,
{
    if n <= 0 {
        Seq::empty()
    } else {
        let earlier = kept_squares(b, down, points, n - 1);
        let c = b.relative_coords@[n - 1];
        if points.contains(player_to_world_spec(down, add_center(b.center, b.relative_coords@)[n - 1])) {
            earlier
        } else {
            earlier.push(c)
        }
    }
}

/// What happens to player `after` when the squares at `points` are removed from the falling
/// block of player `before`: the squares elsewhere stay; a block with no squares left is
/// replaced by the next block, or by a pending timer when there is no room for it.
pub open spec fn squares_removed(before: Player, after: Player, points: Seq<WorldPoint>) -> bool {
    match before.block_or_timer {
        BlockOrTimer::Block(b) => {
            let kept = kept_squares(b, before.down_direction, points, b.relative_coords@.len() as int);
            if kept.len() > 0 {
                &&& same_except_block(after, before)
                &&& after.block_or_timer matches BlockOrTimer::Block(nb)
                &&& nb.relative_coords@ == kept
                &&& nb.center == b.center
                &&& nb.square_content == b.square_content
                &&& nb.rotate_mode == b.rotate_mode
                &&& nb.has_been_in_hold == b.has_been_in_hold
            } else {
                &&& after.client_id == before.client_id
                &&& after.name == before.name
                &&& after.color == before.color
                &&& after.spawn_point == before.spawn_point
                &&& after.down_direction == before.down_direction
                &&& after.block_in_hold == before.block_in_hold
                &&& !after.fast_down
                &&& (after.block_or_timer is TimerPending || (after.block_or_timer matches BlockOrTimer::Block(nb) && is_spawned(before.next_block, nb, before.spawn_point)))
            }
        },
        _ => after == before,
    }
}

/// While squares are being removed: player `after` is `before`, or `before` with its
/// squares removed, or still `before` when it waits for a new block (`pending`).
pub open spec fn removal_stage(before: Player, after: Player, need: Seq<usize>, keep: Option<usize>, j: int, points: Seq<WorldPoint>) -> bool {
    let pending = need.contains(j as usize);
    if keep == Some(j as usize) {
        !pending && after == before
    } else if pending {
        &&& before.block_or_timer matches BlockOrTimer::Block(b)
            && kept_squares(b, before.down_direction, points, b.relative_coords@.len() as int).len() == 0
        &&& after == before
    } else {
        squares_removed(before, after, points)
    }
}

proof fn lemma_push_contains<T>(s: Seq<T>, x: T, y: T)
    ensures
        s.push(x).contains(y) == (s.contains(y) || x == y),
{
    if s.push(x).contains(y) && x != y {
        let k = choose|k: int| 0 <= k < s.push(x).len() && #[trigger] s.push(x)[k] == y;
        assert(s[k] == y);
    }
    if s.contains(y) {
        let k = choose|k: int| 0 <= k < s.len() && #[trigger] s[k] == y;
        assert(s.push(x)[k] == y);
    }
    if x == y {
        assert(s.push(x)[s.len() as int] == y);
    }
}

/// The content after one step of animation (see `SquareContent::animate`).
pub open spec fn animated_content(c: SquareContent) -> SquareContent {
    match c {
        SquareContent::FallingDrill { animation_counter } => SquareContent::FallingDrill {
            animation_counter: ((animation_counter + 1) % 12) as u8,
        },
        other => other,
    }
}

/// `b` is `a` with its content animated.
pub open spec fn block_animated(a: FallingBlock, b: FallingBlock) -> bool {
    &&& b.square_content == animated_content(a.square_content)
    &&& b.relative_coords == a.relative_coords
    &&& b.center == a.center
    &&& b.rotate_mode == a.rotate_mode
    &&& b.has_been_in_hold == a.has_been_in_hold
}

/// Whether the player has a falling drill among the falling, next and held blocks.
pub open spec fn has_falling_drill(p: Player) -> bool {
    ||| (p.block_or_timer matches BlockOrTimer::Block(b) && b.square_content is FallingDrill)
    ||| p.next_block.square_content is FallingDrill
    ||| (p.block_in_hold matches Some(b) && b.square_content is FallingDrill)
}

/// `q` is `p` with the falling, next and held blocks animated.
pub open spec fn animated(p: Player, q: Player) -> bool {
    &&& q.client_id == p.client_id
    &&& q.name == p.name
    &&& q.color == p.color
    &&& q.spawn_point == p.spawn_point
    &&& q.fast_down == p.fast_down
    &&& q.down_direction == p.down_direction
    &&& block_animated(p.next_block, q.next_block)
    &&& match p.block_or_timer {
        BlockOrTimer::Block(b) => q.block_or_timer matches BlockOrTimer::Block(nb) && block_animated(b, nb),
        other => q.block_or_timer == other,
    }
    &&& match p.block_in_hold {
        Some(b) => q.block_in_hold matches Some(nb) && block_animated(b, nb),
        None => q.block_in_hold is None,
    }
}

/// The two players are the same person at the same place of the game.
pub open spec fn same_identity(p: Player, q: Player) -> bool {
    &&& p.client_id == q.client_id
    &&& p.name == q.name
    &&& p.color == q.color
    &&& p.spawn_point == q.spawn_point
    &&& p.down_direction == q.down_direction
}

/// The player's block falls in the step of the given speed: its "fast down" flag is
/// `fast` and it has a falling block.
pub open spec fn is_mover(p: Player, fast: bool) -> bool {
    p.fast_down == fast && p.block_or_timer is Block
}

/// The states of a game while the blocks of the players in `indexes` try to move one step
/// down, one after the other: `states[k + 1]` comes from `states[k]` by the attempt for
/// `indexes[k]` (see `step_down_result`).
pub open spec fn step_down_trace(states: Seq<Game>, indexes: Seq<usize>) -> bool {
    &&& states.len() == indexes.len() + 1
    &&& forall|k: int| 0 <= k < indexes.len() ==> #[trigger] states[k].step_down_result(indexes[k] as int, states[k + 1])
}

/// The first `n` players of `indexes` whose blocks did not move in the trace, in order.
pub open spec fn kept_in_trace(states: Seq<Game>, indexes: Seq<usize>, n: int) -> Seq<usize>
    decreases n,
{
    if n <= 0 {
        Seq::empty()
    } else {
        let prev = kept_in_trace(states, indexes, n - 1);
        if states[n - 1].move_condition(indexes[n - 1] as int, 0, 1, true) {
            prev
        } else {
            prev.push(indexes[n - 1])
        }
    }
}

proof fn lemma_kept_in_trace_prefix(states: Seq<Game>, more: Seq<Game>, indexes: Seq<usize>, more_indexes: Seq<usize>, n: int)
    requires
        0 <= n,
        n <= indexes.len(),
        n <= more_indexes.len(),
        n < states.len(),
        n < more.len(),
        forall|k: int| 0 <= k < n ==> states[k] == more[k] && indexes[k] == more_indexes[k],
    ensures
        kept_in_trace(states, indexes, n) == kept_in_trace(more, more_indexes, n),
    decreases n,
{
    if n > 0 {
        lemma_kept_in_trace_prefix(states, more, indexes, more_indexes, n - 1);
    }
}

/// Whether the attempt number `k` of the trace moved its block.
pub open spec fn succeeded(states: Seq<Game>, indexes: Seq<usize>, k: int) -> bool {
    states[k].move_condition(indexes[k] as int, 0, 1, true)
}

proof fn lemma_kept_in_trace_len(states: Seq<Game>, indexes: Seq<usize>, n: int)
    requires
        0 <= n,
    ensures
        kept_in_trace(states, indexes, n).len() <= n,
        kept_in_trace(states, indexes, n).len() == n <==> forall|k: int| 0 <= k < n ==> !#[trigger] succeeded(states, indexes, k),
    decreases n,
{
    if n > 0 {
        lemma_kept_in_trace_len(states, indexes, n - 1);
        let prev = kept_in_trace(states, indexes, n - 1);
        if succeeded(states, indexes, n - 1) {
            assert(kept_in_trace(states, indexes, n) == prev);
        } else {
            assert(kept_in_trace(states, indexes, n) == prev.push(indexes[n - 1]));
            if prev.len() == n - 1 {
                assert forall|k: int| 0 <= k < n implies !#[trigger] succeeded(states, indexes, k) by {
                    if k < n - 1 {
                        assert(!succeeded(states, indexes, k));
                    }
                }
            } else {
                let k = choose|k: int| 0 <= k < n - 1 && #[trigger] succeeded(states, indexes, k);
                assert(succeeded(states, indexes, k));
            }
        }
    }
}

proof fn lemma_kept_in_trace_contains(states: Seq<Game>, indexes: Seq<usize>, n: int, x: usize)
    requires
        0 <= n <= indexes.len(),
    ensures
        kept_in_trace(states, indexes, n).contains(x) <==> exists|k: int| 0 <= k < n && #[trigger] indexes[k] == x && !succeeded(states, indexes, k),
    decreases n,
{
    if n > 0 {
        lemma_kept_in_trace_contains(states, indexes, n - 1, x);
        let prev = kept_in_trace(states, indexes, n - 1);
        if !succeeded(states, indexes, n - 1) {
            assert(kept_in_trace(states, indexes, n) == prev.push(indexes[n - 1]));
            if prev.contains(x) {
                let w = choose|w: int| 0 <= w < prev.len() && #[trigger] prev[w] == x;
                assert(prev.push(indexes[n - 1])[w] == x);
            }
            if kept_in_trace(states, indexes, n).contains(x) && !prev.contains(x) {
                let cur = prev.push(indexes[n - 1]);
                let w = choose|w: int| 0 <= w < cur.len() && #[trigger] cur[w] == x;
                if w < prev.len() {
                    assert(prev[w] == x);
                }
                assert(indexes[n - 1] == x);
            }
            if exists|k: int| 0 <= k < n && #[trigger] indexes[k] == x && !succeeded(states, indexes, k) {
                if indexes[n - 1] == x {
                    assert(prev.push(indexes[n - 1])[prev.len() as int] == x);
                }
            }
        } else {
            if exists|k: int| 0 <= k < n && #[trigger] indexes[k] == x && !succeeded(states, indexes, k) {
                let k = choose|k: int| 0 <= k < n && #[trigger] indexes[k] == x && !succeeded(states, indexes, k);
                assert(k < n - 1);
            }
        }
    }
}

proof fn lemma_kept_in_trace_increasing(states: Seq<Game>, indexes: Seq<usize>, n: int)
    requires
        0 <= n <= indexes.len(),
        increasing(indexes),
    ensures
        increasing(kept_in_trace(states, indexes, n)),
        forall|a: int| 0 <= a < kept_in_trace(states, indexes, n).len() ==> exists|k: int| 0 <= k < n && #[trigger] indexes[k] == #[trigger] kept_in_trace(states, indexes, n)[a],
    decreases n,
{
    if n > 0 {
        lemma_kept_in_trace_increasing(states, indexes, n - 1);
        let prev = kept_in_trace(states, indexes, n - 1);
        let cur = kept_in_trace(states, indexes, n);
        assert forall|a: int| 0 <= a < cur.len() implies exists|k: int| 0 <= k < n && #[trigger] indexes[k] == #[trigger] cur[a] by {
            if a < prev.len() {
                let k = choose|k: int| 0 <= k < n - 1 && #[trigger] indexes[k] == prev[a];
                assert(indexes[k] == cur[a]);
            } else {
                assert(indexes[n - 1] == cur[a]);
            }
        }
        if !succeeded(states, indexes, n - 1) {
            assert forall|a: int, b: int| 0 <= a < b < cur.len() implies cur[a] < cur[b] by {
                if b == prev.len() {
                    let k = choose|k: int| 0 <= k < n - 1 && #[trigger] indexes[k] == prev[a];
                    assert(indexes[k] < indexes[n - 1]);
                } else {
                    assert(prev[a] < prev[b]);
                }
            }
        }
    }
}

proof fn lemma_trace_concat(s1: Seq<Game>, a1: Seq<usize>, s2: Seq<Game>, a2: Seq<usize>)
    requires
        step_down_trace(s1, a1),
        step_down_trace(s2, a2),
        s1.last() == s2[0],
    ensures
        step_down_trace(s1 + s2.drop_first(), a1 + a2),
        (s1 + s2.drop_first())[0] == s1[0],
        (s1 + s2.drop_first()).last() == s2.last(),
        forall|k: int| 0 <= k <= a1.len() ==> #[trigger] (s1 + s2.drop_first())[k] == s1[k],
        forall|m: int| 0 <= m <= a2.len() ==> #[trigger] (s1 + s2.drop_first())[a1.len() + m] == s2[m],
        forall|k: int| 0 <= k < a1.len() ==> #[trigger] succeeded(s1 + s2.drop_first(), a1 + a2, k) == succeeded(s1, a1, k),
        forall|m: int| 0 <= m < a2.len() ==> #[trigger] succeeded(s1 + s2.drop_first(), a1 + a2, a1.len() + m) == succeeded(s2, a2, m),
{
    let s = s1 + s2.drop_first();
    let a = a1 + a2;
    assert forall|m: int| 0 <= m <= a2.len() implies #[trigger] s[a1.len() + m] == s2[m] by {
        if m > 0 {
            assert(s[a1.len() + m] == s2.drop_first()[m - 1]);
        }
    }
    assert forall|k: int| 0 <= k < a.len() implies #[trigger] s[k].step_down_result(a[k] as int, s[k + 1]) by {
        if k < a1.len() {
            assert(s1[k].step_down_result(a1[k] as int, s1[k + 1]));
            assert(s[k + 1] == s1[k + 1]);
        } else {
            let m = k - a1.len();
            assert(s2[m].step_down_result(a2[m] as int, s2[m + 1]));
            assert(s[a1.len() + m] == s2[m]);
            assert(s[a1.len() + (m + 1)] == s2[m + 1]);
        }
    }
    assert forall|m: int| 0 <= m < a2.len() implies #[trigger] succeeded(s, a, a1.len() + m) == succeeded(s2, a2, m) by {
        assert(s[a1.len() + m] == s2[m]);
        assert(a[a1.len() + m] == a2[m]);
    }
    assert(s.last() == s[(a1.len() + a2.len()) as int]);
}

proof fn lemma_landed_at_step(before: Game, prev: Game, after: Game, wc: Seq<WorldPoint>, rels: Seq<BlockRelativeCoords>,
    c: SquareContent, dir: (i8, i8), q: int, lc: SquareContent)
    requires
        0 <= q < wc.len(),
        before.landed_at(wc.take(q), rels, c, dir, prev),
        prev.mode == before.mode,
        prev.height() == before.height(),
        prev.width() == before.width(),
        forall|j: int| 0 <= j < wc.len() ==> #[trigger] prev.in_array(wc[j]),
        after.landed(wc[q]) == Some(lc),
        landed_content_of(c, rels[q], dir, lc),
        forall|pt: WorldPoint| #[trigger] prev.in_array(pt) && pt != wc[q] ==> after.landed(pt) == prev.landed(pt),
    ensures
        before.landed_at(wc.take(q + 1), rels, c, dir, after),
{
    let t = wc.take(q);
    let t1 = wc.take(q + 1);
    assert(t1 =~= t.push(wc[q]));
    assert(t1[q] == wc[q]);
    assert forall|pt: WorldPoint| before.in_array(pt) && !t1.contains(pt) implies #[trigger] after.landed(pt) == before.landed(pt) by {
        assert(pt != t1[q]);
        if t.contains(pt) {
            let w = choose|w: int| 0 <= w < t.len() && t[w] == pt;
            assert(t1[w] == pt);
        }
        assert(prev.in_array(pt));
        assert(prev.landed(pt) == before.landed(pt));
    }
    assert forall|j: int| 0 <= j < t1.len() implies #[trigger] after.landed(t1[j]) is Some && exists|q2: int|
        0 <= q2 < t1.len() && t1[q2] == t1[j] && landed_content_of(c, #[trigger] rels[q2], dir, after.landed(t1[j])->Some_0) by {
        if t1[j] == wc[q] {
            assert(t1[q] == t1[j]);
            assert(landed_content_of(c, rels[q], dir, after.landed(t1[j])->Some_0));
        } else {
            assert(t1[j] == t[j]);
            assert(prev.in_array(wc[j]));
            assert(after.landed(t1[j]) == prev.landed(t[j]));
            assert(prev.landed(t[j]) is Some);
            let q2 = choose|q2: int| 0 <= q2 < t.len() && t[q2] == t[j] && landed_content_of(c, #[trigger] rels[q2], dir, prev.landed(t[j])->Some_0);
            assert(t1[q2] == t1[j]);
        }
    }
}

/// What holds between the rounds of `move_blocks_down`: the attempts so far (`states`,
/// `att`) started from `g`, were made by players whose blocks fall in the step, and nobody
/// tried again after moving; `drills` and `others` are the players still to try (falling
/// drills and other blocks, each in the order of the players), none of which has moved;
/// every player to move either is still to try or has moved; after the first round, every
/// player still to try has tried.
#[verifier::opaque]
pub open spec fn rounds_inv(g: Game, fast: bool, states: Seq<Game>, att: Seq<usize>, drills: Seq<usize>, others: Seq<usize>, started: bool) -> bool {
    &&& step_down_trace(states, att)
    &&& states[0] == g
    &&& forall|k: int| 0 <= k < att.len() ==> #[trigger] att[k] < g.players@.len() && is_mover(g.players@[att[k] as int], fast)
    &&& increasing(drills)
    &&& increasing(others)
    &&& forall|a: int| 0 <= a < drills.len() ==> #[trigger] drills[a] < g.players@.len()
        && is_mover(g.players@[drills[a] as int], fast) && falling_drill(g.players@[drills[a] as int])
    &&& forall|a: int| 0 <= a < others.len() ==> #[trigger] others[a] < g.players@.len()
        && is_mover(g.players@[others[a] as int], fast) && !falling_drill(g.players@[others[a] as int])
    &&& forall|k: int| 0 <= k < att.len() && (drills.contains(#[trigger] att[k]) || others.contains(att[k])) ==> !succeeded(states, att, k)
    &&& forall|j: int| 0 <= j < g.players@.len() && is_mover(#[trigger] g.players@[j], fast) ==> drills.contains(j as usize)
        || others.contains(j as usize) || exists|k: int| 0 <= k < att.len() && #[trigger] att[k] == j && succeeded(states, att, k)
    &&& forall|k1: int, k2: int| #![trigger att[k1], att[k2]] 0 <= k1 < k2 < att.len() && att[k1] == att[k2] ==> !succeeded(states, att, k1)
    &&& started ==> forall|x: usize| drills.contains(x) || others.contains(x) ==> #[trigger] att.contains(x)
}

proof fn lemma_increasing_unique(s: Seq<usize>, a: int, b: int)
    requires
        increasing(s),
        0 <= a < s.len(),
        0 <= b < s.len(),
        s[a] == s[b],
    ensures
        a == b,
{
    if a < b {
        assert(s[a] < s[b]);
    } else if b < a {
        assert(s[b] < s[a]);
    }
}

/// How the attempts of a round (first `others` through `st1`, then `drills` through `st2`)
/// follow the earlier ones (`states`, `att`) in `ns` and `na`.
pub open spec fn round_layout(states: Seq<Game>, att: Seq<usize>, others: Seq<usize>, drills: Seq<usize>, st1: Seq<Game>,
    st2: Seq<Game>, ns: Seq<Game>, na: Seq<usize>) -> bool {
    let a_len = att.len() as int;
    let o_len = others.len() as int;
    &&& na.len() == att.len() + others.len() + drills.len()
    &&& forall|k: int| 0 <= k < a_len ==> #[trigger] na[k] == att[k] && succeeded(ns, na, k) == succeeded(states, att, k)
    &&& forall|m: int| 0 <= m < o_len ==> #[trigger] na[a_len + m] == others[m]
        && succeeded(ns, na, a_len + m) == succeeded(st1, others, m)
    &&& forall|m: int| 0 <= m < drills.len() ==> #[trigger] na[a_len + o_len + m] == drills[m]
        && succeeded(ns, na, a_len + o_len + m) == succeeded(st2, drills, m)
}

proof fn lemma_rounds_step(g: Game, fast: bool, states: Seq<Game>, att: Seq<usize>, drills: Seq<usize>, others: Seq<usize>,
    started: bool, st1: Seq<Game>, st2: Seq<Game>, drills2: Seq<usize>, others2: Seq<usize>)
    requires
        rounds_inv(g, fast, states, att, drills, others, started),
        step_down_trace(st1, others),
        st1[0] == states.last(),
        others2 == kept_in_trace(st1, others, others.len() as int),
        step_down_trace(st2, drills),
        st2[0] == st1.last(),
        drills2 == kept_in_trace(st2, drills, drills.len() as int),
    ensures
        ({
            let ns = states + (st1 + st2.drop_first()).drop_first();
            let na = att + (others + drills);
            &&& rounds_inv(g, fast, ns, na, drills2, others2, true)
            &&& ns.last() == st2.last()
            &&& drills2.len() <= drills.len()
            &&& others2.len() <= others.len()
            &&& (exists|k: int| 0 <= k < na.len() && #[trigger] succeeded(ns, na, k)) == ((exists|k: int| 0 <= k < att.len()
                && #[trigger] succeeded(states, att, k)) || others2.len() < others.len() || drills2.len() < drills.len())
        }),
{
    reveal(rounds_inv);
    let rs = st1 + st2.drop_first();
    let ra = others + drills;
    let ns = states + rs.drop_first();
    let na = att + ra;
    let n = g.players@.len();
    let a_len = att.len();
    let o_len = others.len();
    let d_len = drills.len();
    lemma_trace_concat(st1, others, st2, drills);
    lemma_trace_concat(states, att, rs, ra);
    lemma_kept_in_trace_len(st1, others, o_len as int);
    lemma_kept_in_trace_len(st2, drills, d_len as int);
    lemma_kept_in_trace_increasing(st1, others, o_len as int);
    lemma_kept_in_trace_increasing(st2, drills, d_len as int);
    assert forall|k: int| 0 <= k < a_len implies #[trigger] na[k] == att[k] && succeeded(ns, na, k) == succeeded(states, att, k) by {}
    assert forall|m: int| 0 <= m < o_len implies #[trigger] na[a_len + m] == others[m]
        && succeeded(ns, na, a_len + m) == succeeded(st1, others, m) by {
        assert(ra[m] == others[m]);
        assert(succeeded(ns, na, a_len + m) == succeeded(rs, ra, m));
    }
    assert forall|m: int| 0 <= m < d_len implies #[trigger] na[a_len + o_len + m] == drills[m]
        && succeeded(ns, na, a_len + o_len + m) == succeeded(st2, drills, m) by {
        assert(ra[o_len + m] == drills[m]);
        assert(succeeded(ns, na, a_len + (o_len + m)) == succeeded(rs, ra, o_len + m));
        assert(succeeded(rs, ra, o_len + m) == succeeded(st2, drills, m));
    }
    assert(round_layout(states, att, others, drills, st1, st2, ns, na));
    lemma_round_came_from(g, fast, states, att, drills, others, started, st1, st2, drills2, others2, ns, na);
    lemma_round_unmoved(g, fast, states, att, drills, others, started, st1, st2, drills2, others2, ns, na);
    lemma_round_covered(g, fast, states, att, drills, others, started, st1, st2, drills2, others2, ns, na);
    lemma_round_once(g, fast, states, att, drills, others, started, st1, st2, drills2, others2, ns, na);
    lemma_round_tried(g, fast, states, att, drills, others, started, st1, st2, drills2, others2, ns, na);
    lemma_kept_in_trace_increasing(st1, others, o_len as int);
    lemma_kept_in_trace_increasing(st2, drills, d_len as int);
}

proof fn lemma_round_came_from(g: Game, fast: bool, states: Seq<Game>, att: Seq<usize>, drills: Seq<usize>, others: Seq<usize>,
    started: bool, st1: Seq<Game>, st2: Seq<Game>, drills2: Seq<usize>, others2: Seq<usize>, ns: Seq<Game>, na: Seq<usize>)
    requires
        rounds_inv(g, fast, states, att, drills, others, started),
        round_layout(states, att, others, drills, st1, st2, ns, na),
        others2 == kept_in_trace(st1, others, others.len() as int),
        drills2 == kept_in_trace(st2, drills, drills.len() as int),
    ensures
        forall|a: int| 0 <= a < others2.len() ==> #[trigger] others2[a] < g.players@.len()
            && is_mover(g.players@[others2[a] as int], fast) && !falling_drill(g.players@[others2[a] as int]),
        forall|a: int| 0 <= a < drills2.len() ==> #[trigger] drills2[a] < g.players@.len()
            && is_mover(g.players@[drills2[a] as int], fast) && falling_drill(g.players@[drills2[a] as int]),
        forall|k: int| 0 <= k < na.len() ==> #[trigger] na[k] < g.players@.len() && is_mover(g.players@[na[k] as int], fast),
{
    reveal(rounds_inv);
    let n = g.players@.len();
    let a_len = att.len() as int;
    let o_len = others.len() as int;
    let d_len = drills.len() as int;
    lemma_kept_in_trace_increasing(st1, others, o_len);
    lemma_kept_in_trace_increasing(st2, drills, d_len);
    // what is still to try came from what was to try
    assert forall|a: int| 0 <= a < others2.len() implies #[trigger] others2[a] < n
        && is_mover(g.players@[others2[a] as int], fast) && !falling_drill(g.players@[others2[a] as int]) by {
        let k = choose|k: int| 0 <= k < o_len && #[trigger] others[k] == others2[a];
        assert(others[k] < n);
    }
    assert forall|a: int| 0 <= a < drills2.len() implies #[trigger] drills2[a] < n
        && is_mover(g.players@[drills2[a] as int], fast) && falling_drill(g.players@[drills2[a] as int]) by {
        let k = choose|k: int| 0 <= k < d_len && #[trigger] drills[k] == drills2[a];
        assert(drills[k] < n);
    }
    assert forall|k: int| 0 <= k < na.len() implies #[trigger] na[k] < n && is_mover(g.players@[na[k] as int], fast) by {
        if k < a_len {
        } else if k < a_len + o_len {
            assert(na[a_len + (k - a_len)] == others[k - a_len]);
        } else {
            assert(na[a_len + o_len + (k - a_len - o_len)] == drills[k - a_len - o_len]);
        }
    }
}

proof fn lemma_round_unmoved(g: Game, fast: bool, states: Seq<Game>, att: Seq<usize>, drills: Seq<usize>, others: Seq<usize>,
    started: bool, st1: Seq<Game>, st2: Seq<Game>, drills2: Seq<usize>, others2: Seq<usize>, ns: Seq<Game>, na: Seq<usize>)
    requires
        rounds_inv(g, fast, states, att, drills, others, started),
        round_layout(states, att, others, drills, st1, st2, ns, na),
        others2 == kept_in_trace(st1, others, others.len() as int),
        drills2 == kept_in_trace(st2, drills, drills.len() as int),
    ensures
        forall|k: int| 0 <= k < na.len() && (drills2.contains(#[trigger] na[k]) || others2.contains(na[k])) ==> !succeeded(ns, na, k),
{
    reveal(rounds_inv);
    let n = g.players@.len();
    let a_len = att.len() as int;
    let o_len = others.len() as int;
    let d_len = drills.len() as int;
    lemma_kept_in_trace_increasing(st1, others, o_len);
    lemma_kept_in_trace_increasing(st2, drills, d_len);
    // players still to try have not moved
    assert forall|k: int| 0 <= k < na.len() && (drills2.contains(#[trigger] na[k]) || others2.contains(na[k])) implies !succeeded(ns, na, k) by {
        let x = na[k];
        if others2.contains(x) {
            lemma_kept_in_trace_contains(st1, others, o_len as int, x);
            let m0 = choose|m0: int| 0 <= m0 < o_len && #[trigger] others[m0] == x && !succeeded(st1, others, m0);
            if k < a_len {
                assert(others.contains(x));
                assert(!succeeded(states, att, k));
            } else if k < a_len + o_len {
                let m = k - a_len;
                assert(na[a_len + m] == others[m]);
                lemma_increasing_unique(others, m, m0);
            } else {
                let m = k - a_len - o_len;
                assert(na[a_len + o_len + m] == drills[m]);
                assert(falling_drill(g.players@[drills[m] as int]));
                assert(!falling_drill(g.players@[others[m0] as int]));
            }
        } else {
            let w = choose|w: int| 0 <= w < drills2.len() && drills2[w] == x;
            assert(drills2[w] == x);
            lemma_kept_in_trace_contains(st2, drills, d_len as int, x);
            let m0 = choose|m0: int| 0 <= m0 < d_len && #[trigger] drills[m0] == x && !succeeded(st2, drills, m0);
            if k < a_len {
                assert(drills.contains(x));
                assert(!succeeded(states, att, k));
            } else if k < a_len + o_len {
                let m = k - a_len;
                assert(na[a_len + m] == others[m]);
                assert(!falling_drill(g.players@[others[m] as int]));
                assert(falling_drill(g.players@[drills[m0] as int]));
            } else {
                let m = k - a_len - o_len;
                assert(na[a_len + o_len + m] == drills[m]);
                lemma_increasing_unique(drills, m, m0);
            }
        }
    }
}

proof fn lemma_round_covered(g: Game, fast: bool, states: Seq<Game>, att: Seq<usize>, drills: Seq<usize>, others: Seq<usize>,
    started: bool, st1: Seq<Game>, st2: Seq<Game>, drills2: Seq<usize>, others2: Seq<usize>, ns: Seq<Game>, na: Seq<usize>)
    requires
        rounds_inv(g, fast, states, att, drills, others, started),
        round_layout(states, att, others, drills, st1, st2, ns, na),
        others2 == kept_in_trace(st1, others, others.len() as int),
        drills2 == kept_in_trace(st2, drills, drills.len() as int),
    ensures
        forall|j: int| 0 <= j < g.players@.len() && is_mover(#[trigger] g.players@[j], fast) ==> drills2.contains(j as usize)
            || others2.contains(j as usize) || exists|k: int| 0 <= k < na.len() && #[trigger] na[k] == j && succeeded(ns, na, k),
{
    reveal(rounds_inv);
    assert(g.players@.len() == g.players.len());
    let n = g.players@.len();
    let a_len = att.len() as int;
    let o_len = others.len() as int;
    let d_len = drills.len() as int;
    lemma_kept_in_trace_increasing(st1, others, o_len);
    lemma_kept_in_trace_increasing(st2, drills, d_len);
    // every player to move is still to try or has moved
    assert forall|j: int| 0 <= j < n && is_mover(#[trigger] g.players@[j], fast) implies drills2.contains(j as usize)
        || others2.contains(j as usize) || exists|k: int| 0 <= k < na.len() && #[trigger] na[k] == j && succeeded(ns, na, k) by {
        if exists|k: int| 0 <= k < a_len && #[trigger] att[k] == j && succeeded(states, att, k) {
            let k = choose|k: int| 0 <= k < a_len && #[trigger] att[k] == j && succeeded(states, att, k);
            assert(na[k] == j && succeeded(ns, na, k));
        } else if others.contains(j as usize) {
            let m = choose|m: int| 0 <= m < o_len && others[m] == j as usize;
            lemma_kept_in_trace_contains(st1, others, o_len as int, j as usize);
            if !others2.contains(j as usize) {
                assert(succeeded(st1, others, m));
                assert(na[a_len + m] == others[m]);
                assert(others[m] == j as usize);
                assert(na[a_len + m] == j);
                assert(succeeded(ns, na, a_len + m));
            }
        } else {
            assert(drills.contains(j as usize));
            let m = choose|m: int| 0 <= m < d_len && drills[m] == j as usize;
            lemma_kept_in_trace_contains(st2, drills, d_len as int, j as usize);
            if !drills2.contains(j as usize) {
                assert(succeeded(st2, drills, m));
                assert(na[a_len + o_len + m] == drills[m]);
                assert(drills[m] == j as usize);
                assert(na[a_len + o_len + m] == j);
                assert(succeeded(ns, na, a_len + o_len + m));
            }
        }
    }
}

proof fn lemma_round_once(g: Game, fast: bool, states: Seq<Game>, att: Seq<usize>, drills: Seq<usize>, others: Seq<usize>,
    started: bool, st1: Seq<Game>, st2: Seq<Game>, drills2: Seq<usize>, others2: Seq<usize>, ns: Seq<Game>, na: Seq<usize>)
    requires
        rounds_inv(g, fast, states, att, drills, others, started),
        round_layout(states, att, others, drills, st1, st2, ns, na),
        others2 == kept_in_trace(st1, others, others.len() as int),
        drills2 == kept_in_trace(st2, drills, drills.len() as int),
    ensures
        forall|k1: int, k2: int| #![trigger na[k1], na[k2]] 0 <= k1 < k2 < na.len() && na[k1] == na[k2] ==> !succeeded(ns, na, k1),
{
    reveal(rounds_inv);
    let n = g.players@.len();
    let a_len = att.len() as int;
    let o_len = others.len() as int;
    let d_len = drills.len() as int;
    lemma_kept_in_trace_increasing(st1, others, o_len);
    lemma_kept_in_trace_increasing(st2, drills, d_len);
    // nobody tries again after moving
    assert forall|k1: int, k2: int| #![trigger na[k1], na[k2]] 0 <= k1 < k2 < na.len() && na[k1] == na[k2] implies !succeeded(ns, na, k1) by {
        if k2 < a_len {
            assert(att[k1] == att[k2]);
        } else if k1 < a_len {
            let x = na[k2];
            if k2 < a_len + o_len {
                assert(na[a_len + (k2 - a_len)] == others[k2 - a_len]);
                assert(others.contains(x));
            } else {
                assert(na[a_len + o_len + (k2 - a_len - o_len)] == drills[k2 - a_len - o_len]);
                assert(drills.contains(x));
            }
            assert(att[k1] == x);
            assert(!succeeded(states, att, k1));
        } else {
            let m1 = k1 - a_len;
            let m2 = k2 - a_len;
            if m2 < o_len {
                assert(na[a_len + m1] == others[m1]);
                assert(na[a_len + m2] == others[m2]);
                lemma_increasing_unique(others, m1, m2);
            } else if m1 >= o_len {
                assert(na[a_len + o_len + (m1 - o_len)] == drills[m1 - o_len]);
                assert(na[a_len + o_len + (m2 - o_len)] == drills[m2 - o_len]);
                lemma_increasing_unique(drills, m1 - o_len, m2 - o_len);
            } else {
                assert(na[a_len + m1] == others[m1]);
                assert(na[a_len + o_len + (m2 - o_len)] == drills[m2 - o_len]);
                assert(!falling_drill(g.players@[others[m1] as int]));
                assert(falling_drill(g.players@[drills[m2 - o_len] as int]));
            }
        }
    }
}

proof fn lemma_round_tried(g: Game, fast: bool, states: Seq<Game>, att: Seq<usize>, drills: Seq<usize>, others: Seq<usize>,
    started: bool, st1: Seq<Game>, st2: Seq<Game>, drills2: Seq<usize>, others2: Seq<usize>, ns: Seq<Game>, na: Seq<usize>)
    requires
        rounds_inv(g, fast, states, att, drills, others, started),
        round_layout(states, att, others, drills, st1, st2, ns, na),
        others2 == kept_in_trace(st1, others, others.len() as int),
        drills2 == kept_in_trace(st2, drills, drills.len() as int),
    ensures
        forall|x: usize| drills2.contains(x) || others2.contains(x) ==> #[trigger] na.contains(x),
        (exists|k: int| 0 <= k < na.len() && #[trigger] succeeded(ns, na, k)) == ((exists|k: int| 0 <= k < att.len()
            && #[trigger] succeeded(states, att, k)) || others2.len() < others.len() || drills2.len() < drills.len()),
{
    reveal(rounds_inv);
    let n = g.players@.len();
    let a_len = att.len() as int;
    let o_len = others.len() as int;
    let d_len = drills.len() as int;
    lemma_kept_in_trace_increasing(st1, others, o_len);
    lemma_kept_in_trace_increasing(st2, drills, d_len);
    // everybody still to try has tried
    assert forall|x: usize| drills2.contains(x) || others2.contains(x) implies #[trigger] na.contains(x) by {
        if others2.contains(x) {
            lemma_kept_in_trace_contains(st1, others, o_len as int, x);
            let m0 = choose|m0: int| 0 <= m0 < o_len && #[trigger] others[m0] == x && !succeeded(st1, others, m0);
            assert(na[a_len + m0] == x);
        } else {
            lemma_kept_in_trace_contains(st2, drills, d_len as int, x);
            let m0 = choose|m0: int| 0 <= m0 < d_len && #[trigger] drills[m0] == x && !succeeded(st2, drills, m0);
            assert(na[a_len + o_len + m0] == x);
        }
    }
    lemma_kept_in_trace_len(st1, others, o_len);
    lemma_kept_in_trace_len(st2, drills, d_len);
    // whether anything moved
    if exists|k: int| 0 <= k < na.len() && #[trigger] succeeded(ns, na, k) {
        let k = choose|k: int| 0 <= k < na.len() && #[trigger] succeeded(ns, na, k);
        if k < a_len {
            assert(succeeded(states, att, k));
        } else if k < a_len + o_len {
            assert(na[a_len + (k - a_len)] == others[k - a_len]);
            assert(succeeded(st1, others, k - a_len));
        } else {
            assert(succeeded(ns, na, a_len + o_len + (k - a_len - o_len)));
            assert(succeeded(st2, drills, k - a_len - o_len));
        }
    }
    if others2.len() < o_len {
        let m = choose|m: int| 0 <= m < o_len && #[trigger] succeeded(st1, others, m);
        assert(succeeded(ns, na, a_len + m));
    }
    if drills2.len() < d_len {
        let m = choose|m: int| 0 <= m < d_len && #[trigger] succeeded(st2, drills, m);
        assert(succeeded(ns, na, a_len + o_len + m));
    }
    if exists|k: int| 0 <= k < a_len && #[trigger] succeeded(states, att, k) {
        let k = choose|k: int| 0 <= k < a_len && #[trigger] succeeded(states, att, k);
        assert(succeeded(ns, na, k));
    }
}

proof fn lemma_moved_down_result(g: Game, fast: bool, states: Seq<Game>, att: Seq<usize>, drills: Seq<usize>, others: Seq<usize>, mid: Game)
    requires
        rounds_inv(g, fast, states, att, drills, others, true),
        states.last() == mid,
        forall|a: int| 0 <= a < drills.len() ==> !mid.move_condition(#[trigger] drills[a] as int, 0, 1, true),
        forall|a: int| 0 <= a < others.len() ==> !mid.move_condition(#[trigger] others[a] as int, 0, 1, true),
    ensures
        g.moved_down_result(fast, states, att, drills + others, mid),
{
    reveal(rounds_inv);
    assert(g.players@.len() == g.players.len());
    let n = g.players@.len();
    let rem = drills + others;
    let d_len = drills.len() as int;
    assert forall|x: usize| #[trigger] rem.contains(x) <==> drills.contains(x) || others.contains(x) by {
        if rem.contains(x) {
            let w = choose|w: int| 0 <= w < rem.len() && rem[w] == x;
            if w < d_len {
                assert(drills[w] == x);
            } else {
                assert(others[w - d_len] == x);
            }
        }
        if drills.contains(x) {
            let w = choose|w: int| 0 <= w < drills.len() && drills[w] == x;
            assert(rem[w] == x);
        }
        if others.contains(x) {
            let w = choose|w: int| 0 <= w < others.len() && others[w] == x;
            assert(rem[d_len + w] == x);
        }
    }
    assert forall|a: int| 0 <= a < rem.len() implies #[trigger] rem[a] < n && is_mover(g.players@[rem[a] as int], fast)
        && (falling_drill(g.players@[rem[a] as int]) <==> a < d_len) by {
        if a < d_len {
            assert(rem[a] == drills[a]);
        } else {
            assert(rem[a] == others[a - d_len]);
        }
    }
    assert forall|j: int| 0 <= j < n && is_mover(#[trigger] g.players@[j], fast) implies att.contains(j as usize) by {
        if drills.contains(j as usize) || others.contains(j as usize) {
            assert(att.contains(j as usize));
        } else {
            let k = choose|k: int| 0 <= k < att.len() && #[trigger] att[k] == j && succeeded(states, att, k);
            assert(att[k] == j as usize);
        }
    }
    assert forall|j: int| #![trigger g.players@[j]] 0 <= j < n implies (rem.contains(j as usize) <==>
        is_mover(g.players@[j], fast) && forall|k: int| 0 <= k < att.len() && #[trigger] att[k] == j ==> !succeeded(states, att, k)) by {
        if rem.contains(j as usize) {
            let w = choose|w: int| 0 <= w < rem.len() && rem[w] == j as usize;
            assert(is_mover(g.players@[rem[w] as int], fast));
            assert forall|k: int| 0 <= k < att.len() && #[trigger] att[k] == j implies !succeeded(states, att, k) by {
                assert(att[k] == j as usize);
                assert(drills.contains(att[k]) || others.contains(att[k]));
            }
        }
        if is_mover(g.players@[j], fast) && forall|k: int| 0 <= k < att.len() && #[trigger] att[k] == j ==> !succeeded(states, att, k) {
            if !(drills.contains(j as usize) || others.contains(j as usize)) {
                let k = choose|k: int| 0 <= k < att.len() && #[trigger] att[k] == j && succeeded(states, att, k);
                assert(false);
            }
        }
    }
    assert forall|a: int, b: int| #![trigger rem[a], rem[b]] 0 <= a < b < rem.len() implies
        (falling_drill(g.players@[rem[b] as int]) ==> falling_drill(g.players@[rem[a] as int]))
        && (falling_drill(g.players@[rem[a] as int]) == falling_drill(g.players@[rem[b] as int]) ==> rem[a] < rem[b]) by {
        assert(rem[a] < n && (falling_drill(g.players@[rem[a] as int]) <==> a < d_len));
        assert(rem[b] < n && (falling_drill(g.players@[rem[b] as int]) <==> b < d_len));
        if b < d_len {
            assert(rem[a] == drills[a] && rem[b] == drills[b]);
        } else if a >= d_len {
            assert(rem[a] == others[a - d_len] && rem[b] == others[b - d_len]);
        }
    }
    assert forall|a: int| 0 <= a < rem.len() implies !mid.move_condition(#[trigger] rem[a] as int, 0, 1, true) by {
        if a < d_len {
            assert(rem[a] == drills[a]);
        } else {
            assert(rem[a] == others[a - d_len]);
        }
    }
}

/// When the block of only one player falls in a step and it can move down, the step moves
/// it exactly one row down (drilling through what is in its way if it is a drill), and no
/// block is left to land or to lose its "fast down" flag.
pub proof fn law_lone_block_moves_one_row(g: Game, fast: bool, i: int, states: Seq<Game>, attempts: Seq<usize>,
    remaining: Seq<usize>, mid: Game)
    requires
        0 <= i < g.players@.len(),
        is_mover(g.players@[i], fast),
        forall|j: int| 0 <= j < g.players@.len() && j != i ==> !is_mover(#[trigger] g.players@[j], fast),
        g.move_condition(i, 0, 1, true),
        g.moved_down_result(fast, states, attempts, remaining, mid),
    ensures
        remaining.len() == 0,
        g.players@[i].block_or_timer matches BlockOrTimer::Block(b) && mid.players@[i].block_or_timer matches BlockOrTimer::Block(nb)
            && nb.center == (b.center.0, (b.center.1 + 1) as i32) && nb.relative_coords@ == b.relative_coords@
            && nb.square_content == b.square_content,
{
    assert(attempts.contains(i as usize));
    assert forall|k: int| 0 <= k < attempts.len() implies #[trigger] attempts[k] == i by {
        assert(is_mover(g.players@[attempts[k] as int], fast));
    }
    assert(attempts[0] == i);
    assert(succeeded(states, attempts, 0));
    if attempts.len() > 1 {
        assert(attempts[1] == i);
        assert(!succeeded(states, attempts, 0));
    }
    let k0: int = 0;
    assert(step_down_trace(states, attempts));
    assert(states[k0].step_down_result(attempts[k0] as int, states[k0 + 1]));
    assert(mid == states[1]);
    if remaining.len() > 0 {
        let j = remaining[0] as int;
        assert(remaining.contains(remaining[0]));
        assert(g.players@[j] == g.players@[j]);
        if j == i {
            assert(attempts[0] == j && succeeded(states, attempts, 0));
        }
    }
}

proof fn lemma_failed_attempts_keep_game(g: Game, i: int, states: Seq<Game>, attempts: Seq<usize>, k: int)
    requires
        step_down_trace(states, attempts),
        states[0] == g,
        !g.move_condition(i, 0, 1, true),
        forall|q: int| 0 <= q < attempts.len() ==> #[trigger] attempts[q] == i,
        0 <= k <= attempts.len(),
    ensures
        states[k] == g,
    decreases k,
{
    if k > 0 {
        lemma_failed_attempts_keep_game(g, i, states, attempts, k - 1);
        assert(states[k - 1].step_down_result(attempts[k - 1] as int, states[(k - 1) + 1]));
    }
}

/// When the block of only one player falls in a step that is not a fast one and it cannot
/// move down, the game is finished for that player alone: the block lands (or is gone,
/// with a pending timer, if it is not inside the playing area).
pub proof fn law_lone_block_lands(g: Game, i: int, states: Seq<Game>, attempts: Seq<usize>, remaining: Seq<usize>,
    fstates: Seq<Game>, after: Game)
    requires
        0 <= i < g.players@.len(),
        is_mover(g.players@[i], false),
        forall|j: int| 0 <= j < g.players@.len() && j != i ==> !is_mover(#[trigger] g.players@[j], false),
        !g.move_condition(i, 0, 1, true),
        g.moved_down_result(false, states, attempts, remaining, fstates[0]),
        fstates[0].finished_result(false, remaining, fstates, after),
    ensures
        remaining == seq![i as usize],
        g.finish_result(i, false, after),
{
    assert forall|k: int| 0 <= k < attempts.len() implies #[trigger] attempts[k] == i by {
        assert(is_mover(g.players@[attempts[k] as int], false));
    }
    lemma_failed_attempts_keep_game(g, i, states, attempts, attempts.len() as int);
    assert(fstates[0] == g);
    assert forall|k: int| 0 <= k < attempts.len() && #[trigger] attempts[k] == i implies !succeeded(states, attempts, k) by {
        lemma_failed_attempts_keep_game(g, i, states, attempts, k);
    }
    assert(g.players@[i] == g.players@[i]);
    assert(remaining.contains(i as usize));
    assert forall|a: int| 0 <= a < remaining.len() implies #[trigger] remaining[a] == i by {
        let j = remaining[a] as int;
        assert(remaining.contains(remaining[a]));
        assert(g.players@[j] == g.players@[j]);
    }
    if remaining.len() > 1 {
        assert(remaining[0] == i && remaining[1] == i);
    }
    assert(remaining =~= seq![i as usize]);
    let q0: int = 0;
    assert(fstates[q0].finish_result(remaining[q0] as int, false, fstates[q0 + 1]));
    assert(fstates.last() == fstates[1]);
}

proof fn lemma_kept_squares_nothing(b: FallingBlock, down: WorldPoint, points: Seq<WorldPoint>, n: int)
    requires
        0 <= n <= b.relative_coords@.len(),
        points.len() == 0,
    ensures
        kept_squares(b, down, points, n) == b.relative_coords@.take(n),
    decreases n,
{
    if n > 0 {
        lemma_kept_squares_nothing(b, down, points, n - 1);
        assert(b.relative_coords@.take(n) =~= b.relative_coords@.take(n - 1).push(b.relative_coords@[n - 1]));
    }
}

/// Removing no squares leaves a player as it is.
proof fn lemma_nothing_removed(p: Player, points: Seq<WorldPoint>)
    requires
        p.wf(),
        points.len() == 0,
    ensures
        squares_removed(p, p, points),
{
    if let BlockOrTimer::Block(b) = p.block_or_timer {
        lemma_kept_squares_nothing(b, p.down_direction, points, b.relative_coords@.len() as int);
        assert(b.relative_coords@.take(b.relative_coords@.len() as int) =~= b.relative_coords@);
    }
}

proof fn lemma_rows_without_nothing(rows: Seq<Seq<Option<SquareContent>>>, points: Seq<WorldPoint>, offset: (int, int))
    requires
        points.len() == 0,
    ensures
        rows_without(rows, points, offset) == rows,
{
    assert forall|y: int| 0 <= y < rows.len() implies #[trigger] rows_without(rows, points, offset)[y] == rows[y] by {
        assert(rows_without(rows, points, offset)[y] =~= rows[y]);
    }
    assert(rows_without(rows, points, offset) =~= rows);
}

/// What every public operation that changes a game keeps (all but `truncate_height`): the
/// mode and the height stay, and the score does not go down.
pub open spec fn game_step(before: Game, after: Game) -> bool {
    &&& after.mode == before.mode
    &&& after.height() == before.height()
    &&& after.score >= before.score
}

/// Over any sequence of such operations, the mode and the height stay what they were at
/// the start (for a new game, 20 rows in traditional mode, 21 in bottle mode and 37 in ring
/// mode), and the score never goes down.
pub proof fn law_height_and_score_over_steps(games: Seq<Game>)
    requires
        games.len() > 0,
        forall|k: int| 0 <= k < games.len() - 1 ==> game_step(#[trigger] games[k], games[k + 1]),
    ensures
        forall|k: int| 0 <= k < games.len() ==> (#[trigger] games[k]).mode == games[0].mode
            && games[k].height() == games[0].height() && games[k].score >= games[0].score,
        forall|k: int, l: int| 0 <= k <= l < games.len() ==> (#[trigger] games[k]).score <= (#[trigger] games[l]).score,
    decreases games.len(),
{
    if games.len() > 1 {
        let shorter = games.drop_last();
        assert forall|k: int| 0 <= k < shorter.len() - 1 implies game_step(#[trigger] shorter[k], shorter[k + 1]) by {
            assert(game_step(games[k], games[k + 1]));
        }
        law_height_and_score_over_steps(shorter);
        let last = games.len() - 1;
        assert(game_step(games[last - 1], games[last]));
        assert(shorter[last - 1] == games[last - 1]);
        assert forall|k: int| 0 <= k < games.len() implies (#[trigger] games[k]).mode == games[0].mode
            && games[k].height() == games[0].height() && games[k].score >= games[0].score by {
            if k < last {
                assert(shorter[k] == games[k]);
            }
        }
        assert forall|k: int, l: int| 0 <= k <= l < games.len() implies (#[trigger] games[k]).score <= (#[trigger] games[l]).score by {
            if l < last {
                assert(shorter[k] == games[k] && shorter[l] == games[l]);
            } else if k < last {
                assert(shorter[k] == games[k]);
                assert(shorter[k].score <= shorter[last - 1].score);
            }
        }
    }
}

/// The falling block of the player has a square at the world point.
pub open spec fn covers(p: Player, point: WorldPoint) -> bool {
    p.block_or_timer is Block && block_world_points(p).contains(point)
}

proof fn lemma_first_index(points: Seq<WorldPoint>, point: WorldPoint)
    ensures
        match first_index(points, point) {
            Some(k) => 0 <= k < points.len() && points[k] == point && forall|m: int| 0 <= m < k ==> #[trigger] points[m] != point,
            None => !points.contains(point),
        },
    decreases points.len(),
{
    if points.len() > 0 {
        lemma_first_index(points.drop_last(), point);
        if first_index(points.drop_last(), point) is None && points.contains(point) {
            let w = choose|w: int| 0 <= w < points.len() && points[w] == point;
            if w < points.len() - 1 {
                assert(points.drop_last()[w] == point);
            }
        }
        match first_index(points.drop_last(), point) {
            Some(k) => {
                assert forall|m: int| 0 <= m < k implies #[trigger] points[m] != point by {
                    assert(points[m] == points.drop_last()[m]);
                }
            },
            None => {
                assert forall|m: int| 0 <= m < points.len() - 1 implies #[trigger] points[m] != point by {
                    assert(points[m] == points.drop_last()[m]);
                }
            },
        }
    }
}

/// The falling square at a world point (see `get_moving_square`) is that of the first
/// player, other than the excluded one, whose falling block covers the point: the block's
/// content, and the place relative to the center of the block's first square there. There
/// is none when no such player covers the point.
pub proof fn law_falling_square_is_first(players: Seq<Player>, point: WorldPoint, exclude: Option<usize>)
    requires
        players.len() <= usize::MAX,
    ensures
        match falling_square_spec(players, point, exclude) {
            Some((c, rel, i)) => {
                &&& 0 <= i < players.len()
                &&& exclude != Some(i)
                &&& covers(players[i as int], point)
                &&& forall|j: int| 0 <= j < i && exclude != Some(j as usize) ==> !covers(#[trigger] players[j], point)
                &&& players[i as int].block_or_timer matches BlockOrTimer::Block(b) && c == b.square_content
                    && exists|k: int| 0 <= k < block_world_points(players[i as int]).len()
                        && #[trigger] block_world_points(players[i as int])[k] == point && rel == b.relative_coords@[k]
                        && forall|m: int| 0 <= m < k ==> block_world_points(players[i as int])[m] != point
            },
            None => forall|j: int| 0 <= j < players.len() && exclude != Some(j as usize) ==> !covers(#[trigger] players[j], point),
        },
    decreases players.len(),
{
    if players.len() > 0 {
        let rest = players.drop_last();
        let last = players.len() - 1;
        law_falling_square_is_first(rest, point, exclude);
        lemma_first_index(block_world_points(players[last]), point);
        match falling_square_spec(rest, point, exclude) {
            Some((c, rel, i)) => {
                assert(players[i as int] == rest[i as int]);
                assert forall|j: int| 0 <= j < i && exclude != Some(j as usize) implies !covers(#[trigger] players[j], point) by {
                    assert(players[j] == rest[j]);
                }
            },
            None => {
                assert forall|j: int| 0 <= j < last && exclude != Some(j as usize) implies !covers(#[trigger] players[j], point) by {
                    assert(players[j] == rest[j]);
                    assert(!covers(rest[j], point));
                }
                if let Some((c, rel, i)) = falling_square_spec(players, point, exclude) {
                    assert(i == last);
                    let b = players[last].block_or_timer->Block_0;
                    let k = first_index(block_world_points(players[last]), point)->Some_0;
                    assert(block_world_points(players[last])[k] == point);
                    assert(block_world_points(players[last]).contains(point));
                    assert(block_world_points(players[last]).len() == b.relative_coords@.len());
                }
            },
        }
    }
}

proof fn lemma_first_player_same_ids(a: Seq<Player>, b: Seq<Player>, client_id: u64)
    requires
        a.len() == b.len(),
        forall|j: int| 0 <= j < a.len() ==> (#[trigger] a[j]).client_id == b[j].client_id,
    ensures
        first_player_with(a, client_id) == first_player_with(b, client_id),
    decreases a.len(),
{
    if a.len() > 0 {
        assert(a.last().client_id == b.last().client_id);
        assert forall|j: int| 0 <= j < a.drop_last().len() implies (#[trigger] a.drop_last()[j]).client_id == b.drop_last()[j].client_id by {
            assert(a.drop_last()[j] == a[j]);
            assert(b.drop_last()[j] == b[j]);
        }
        lemma_first_player_same_ids(a.drop_last(), b.drop_last(), client_id);
    }
}

proof fn lemma_countdown_at(games: Seq<Game>, results: Seq<bool>, client_id: u64, t: u8, i: int, k: int)
    requires
        1 <= t,
        games.len() == t + 1,
        results.len() == t,
        forall|q: int| 0 <= q < t ==> (#[trigger] games[q]).tick_result(client_id, games[q + 1], results[q]),
        i == first_player_with(games[0].players@, client_id),
        i >= 0,
        games[0].players@[i].block_or_timer == BlockOrTimer::Timer(t),
        0 <= k < t,
    ensures
        first_player_with(games[k].players@, client_id) == i,
        games[k].players@[i].block_or_timer == BlockOrTimer::Timer((t - k) as u8),
    decreases k,
{
    if k > 0 {
        lemma_countdown_at(games, results, client_id, t, i, k - 1);
        let g = games[k - 1];
        let h = games[k];
        assert(g.tick_result(client_id, games[(k - 1) + 1], results[k - 1]));
        assert(results[k - 1]);
        assert forall|j: int| 0 <= j < g.players@.len() implies (#[trigger] g.players@[j]).client_id == h.players@[j].client_id by {
            if j != i {
                assert(h.players@[j] == g.players@[j]);
            }
        }
        lemma_first_player_same_ids(g.players@, h.players@, client_id);
    }
}

/// The waiting counter of a player counts down once per call: from `Timer(t)` (`t` at least
/// 1), the first `t - 1` calls return true and leave `Timer(t - 1)`, ..., `Timer(1)`, and the
/// next call returns false and ends the waiting (the player gets a new block or a pending
/// timer, see `tick_result`).
pub proof fn law_wait_counter_counts_down(games: Seq<Game>, results: Seq<bool>, client_id: u64, t: u8)
    requires
        1 <= t,
        games.len() == t + 1,
        results.len() == t,
        forall|k: int| 0 <= k < t ==> (#[trigger] games[k]).tick_result(client_id, games[k + 1], results[k]),
        first_player_with(games[0].players@, client_id) >= 0,
        games[0].players@[first_player_with(games[0].players@, client_id)].block_or_timer == BlockOrTimer::Timer(t),
    ensures
        forall|k: int| 0 <= k < t ==> first_player_with((#[trigger] games[k]).players@, client_id) == first_player_with(games[0].players@, client_id)
            && games[k].players@[first_player_with(games[0].players@, client_id)].block_or_timer == BlockOrTimer::Timer((t - k) as u8)
            && results[k] == (k < t - 1),
        !(games[t as int].players@[first_player_with(games[0].players@, client_id)].block_or_timer is Timer),
{
    let i = first_player_with(games[0].players@, client_id);
    assert forall|k: int| 0 <= k < t implies first_player_with((#[trigger] games[k]).players@, client_id) == i
        && games[k].players@[i].block_or_timer == BlockOrTimer::Timer((t - k) as u8)
        && results[k] == (k < t - 1) by {
        lemma_countdown_at(games, results, client_id, t, i, k);
        assert(games[k].tick_result(client_id, games[k + 1], results[k]));
    }
    let last = t - 1;
    lemma_countdown_at(games, results, client_id, t, i, last);
    assert(games[last].tick_result(client_id, games[last + 1], results[last]));
}

/// A game of the traditional or the bottle mode has room for 6 players (as a lobby has),
/// a ring game for 4.
pub proof fn law_max_players()
    ensures
        Mode::Traditional.spec_max_players() == 6,
        Mode::Bottle.spec_max_players() == 6,
        Mode::Ring.spec_max_players() == 4,
        MAX_CLIENTS_PER_LOBBY == 6,
{
}

/// How a block turns (see `is_rotated`): a block that turns all the way round goes a quarter
/// turn counter-clockwise, (x, y) becoming (y, -x), when the player prefers that, and
/// clockwise, (x, y) becoming (-y, x), otherwise; a block with two positions goes clockwise
/// and then back counter-clockwise, whatever the player prefers; a block that does not turn
/// keeps its squares. The center stays.
pub proof fn law_turn_direction(a: FallingBlock, b: FallingBlock, prefer_counter_clockwise: bool)
    requires
        a.wf(),
        is_rotated(a, b, prefer_counter_clockwise),
    ensures
        b.relative_coords@.len() == a.relative_coords@.len(),
        b.center == a.center,
        forall|k: int| 0 <= k < a.relative_coords@.len() ==> {
            let (x, y) = a.relative_coords@[k];
            let (nx, ny) = #[trigger] b.relative_coords@[k];
            &&& a.rotate_mode == RotateMode::FullRotating && prefer_counter_clockwise ==> nx == y && ny == -x
            &&& a.rotate_mode == RotateMode::FullRotating && !prefer_counter_clockwise ==> nx == -y && ny == x
            &&& a.rotate_mode == RotateMode::NextClockwiseThenBack ==> nx == -y && ny == x
            &&& a.rotate_mode == RotateMode::NextCounterClockwiseThenBack ==> nx == y && ny == -x
            &&& a.rotate_mode == RotateMode::NoRotating ==> nx == x && ny == y
        },
        a.rotate_mode == RotateMode::NextClockwiseThenBack ==> b.rotate_mode == RotateMode::NextCounterClockwiseThenBack,
        a.rotate_mode == RotateMode::NextCounterClockwiseThenBack ==> b.rotate_mode == RotateMode::NextClockwiseThenBack,
        a.rotate_mode == RotateMode::FullRotating ==> b.rotate_mode == RotateMode::FullRotating,
{
    assert forall|k: int| 0 <= k < a.relative_coords@.len() implies {
        let (x, y) = a.relative_coords@[k];
        let (nx, ny) = #[trigger] b.relative_coords@[k];
        &&& a.rotate_mode == RotateMode::FullRotating && prefer_counter_clockwise ==> nx == y && ny == -x
        &&& a.rotate_mode == RotateMode::FullRotating && !prefer_counter_clockwise ==> nx == -y && ny == x
        &&& a.rotate_mode == RotateMode::NextClockwiseThenBack ==> nx == -y && ny == x
        &&& a.rotate_mode == RotateMode::NextCounterClockwiseThenBack ==> nx == y && ny == -x
        &&& a.rotate_mode == RotateMode::NoRotating ==> nx == x && ny == y
    } by {
        assert(-16 <= a.relative_coords@[k].0 <= 16 && -16 <= a.relative_coords@[k].1 <= 16);
    }
}

/// The sizes and the scoring: a lone traditional player has 10 columns, several have 7
/// each; a bottle is 10 columns per player, less the wall that the last one does not need;
/// a ring game is 37 wide. Clearing rows gives 10 points for the first row, 20 for the
/// second, 30 for the third and so on, and the points of rows that everyone clears double
/// with each further player. Each traditional player starts in the middle of their own
/// columns, each bottle player in the middle of their bottle, on the top row.
pub proof fn law_sizes_and_scores()
    ensures
        width_spec(Mode::Traditional, 1) == 10,
        forall|n: int| n >= 2 ==> #[trigger] width_spec(Mode::Traditional, n) == 7 * n,
        forall|n: int| n >= 1 ==> #[trigger] width_spec(Mode::Bottle, n) == 10 * n - 1,
        forall|n: int| #[trigger] width_spec(Mode::Ring, n) == 37,
        clear_score(0) == 0,
        forall|k: nat| #[trigger] clear_score(k + 1) == clear_score(k) + 10 * (k + 1),
        player_multiplier(1) == 1,
        forall|n: nat| n >= 1 ==> #[trigger] player_multiplier(n + 1) == 2 * player_multiplier(n),
        forall|i: int| 0 <= i < 1000 ==> #[trigger] spawn_point_spec(Mode::Traditional, 1, i) == ((10 * i + 5) as i32, 0i32),
        forall|n: int, i: int| 2 <= n && 0 <= i < n && n < 1000 ==> #[trigger] spawn_point_spec(Mode::Traditional, n, i) == ((7 * i + 3) as i32, 0i32),
        forall|n: int, i: int| 0 <= i < n && n < 1000 ==> #[trigger] spawn_point_spec(Mode::Bottle, n, i) == ((10 * i + 4) as i32, 0i32),
{
    assert(5 * 0 * (0 + 1) == 0) by (nonlinear_arith);
    assert forall|k: nat| #[trigger] clear_score(k + 1) == clear_score(k) + 10 * (k + 1) by {
        assert(5 * (k + 1) * (k + 2) == 5 * k * (k + 1) + 10 * (k + 1)) by (nonlinear_arith);
    }
}

proof fn lemma_lowest_is_max(c: Seq<BlockRelativeCoords>)
    requires
        c.len() > 0,
    ensures
        forall|k: int| 0 <= k < c.len() ==> (#[trigger] c[k]).1 <= FallingBlock::lowest_relative_y(c),
        exists|k: int| 0 <= k < c.len() && (#[trigger] c[k]).1 == FallingBlock::lowest_relative_y(c),
    decreases c.len(),
{
    if c.len() > 1 {
        let d = c.drop_last();
        lemma_lowest_is_max(d);
        assert forall|k: int| 0 <= k < c.len() implies (#[trigger] c[k]).1 <= FallingBlock::lowest_relative_y(c) by {
            if k < c.len() - 1 {
                assert(c[k] == d[k]);
            }
        }
        if c.last().1 > FallingBlock::lowest_relative_y(d) {
            assert(c[c.len() - 1].1 == FallingBlock::lowest_relative_y(c));
        } else {
            let k = choose|k: int| 0 <= k < d.len() && (#[trigger] d[k]).1 == FallingBlock::lowest_relative_y(d);
            assert(c[k] == d[k]);
        }
    } else {
        assert(c[0].1 == FallingBlock::lowest_relative_y(c));
    }
}

/// A new block appears with its lowest squares on the row just above the spawn point (so
/// that it comes into view as it falls), centered on the spawn point's column, with its
/// shape unchanged.
pub proof fn law_spawn_place(a: FallingBlock, b: FallingBlock, spawn_point: PlayerPoint)
    requires
        a.wf(),
        a.relative_coords@.len() > 0,
        -0x4000_0000 <= spawn_point.1 <= 0x4000_0000,
        is_spawned(a, b, spawn_point),
    ensures
        b.relative_coords@ == a.relative_coords@,
        b.center.0 == spawn_point.0,
        forall|k: int| 0 <= k < b.relative_coords@.len() ==> b.center.1 + (#[trigger] b.relative_coords@[k]).1 <= spawn_point.1 - 1,
        exists|k: int| 0 <= k < b.relative_coords@.len() && b.center.1 + (#[trigger] b.relative_coords@[k]).1 == spawn_point.1 - 1,
{
    lemma_lowest_is_max(a.relative_coords@);
    let k = choose|k: int| 0 <= k < a.relative_coords@.len() && (#[trigger] a.relative_coords@[k]).1
        == FallingBlock::lowest_relative_y(a.relative_coords@);
    assert(-16 <= a.relative_coords@[k].0 <= 16 && -16 <= a.relative_coords@[k].1 <= 16);
    assert(b.relative_coords@[k] == a.relative_coords@[k]);
}

/// The sequence is strictly increasing.
pub open spec fn increasing(s: Seq<usize>) -> bool {
    forall|a: int, b: int| 0 <= a < b < s.len() ==> s[a] < s[b]
}

/// The player has a falling drill.
pub open spec fn falling_drill(p: Player) -> bool {
    p.block_or_timer matches BlockOrTimer::Block(b) && b.square_content.spec_is_drill()
}

/// `r` is what a square of a block with content `c`, at `rel` from the center, becomes
/// when the block lands for a player going in direction `dir` (see `get_landed_content`).
pub open spec fn landed_content_of(c: SquareContent, rel: BlockRelativeCoords, dir: (i8, i8), r: SquareContent) -> bool {
    match c {
        SquareContent::FallingDrill { animation_counter } => r is LandedDrill && forall|k: int|
            0 <= k < 4 ==> #[trigger] r->texts_by_viewer_direction[k]@ == SquareContent::landed_drill_texts(animation_counter, rel, dir)[k],
        _ => r == c,
    }
}

/// The world points of the squares of block `b` of player `p`.
pub open spec fn block_world_coords(p: Player, b: FallingBlock) -> Seq<WorldPoint> {
    Seq::new(b.relative_coords@.len(), |q: int| player_to_world_spec(p.down_direction, add_center(b.center, b.relative_coords@)[q]))
}

/// The squares (player coordinates) of a block after the columns `left..left + width`
/// are removed: squares in those columns are gone, those on their right move left.
pub open spec fn wiped_points(points: Seq<PlayerPoint>, left: int, width: int) -> Seq<PlayerPoint>
    decreases points.len(),
{
    if points.len() == 0 {
        Seq::empty()
    } else {
        let prev = wiped_points(points.drop_last(), left, width);
        let pt = points.last();
        if pt.0 < left {
            prev.push(pt)
        } else if pt.0 >= left + width {
            prev.push(((pt.0 - width) as i32, pt.1))
        } else {
            prev
        }
    }
}

/// The column of the center of a block after the columns `left..left + width` are
/// removed: it moves like a square, except that a center in those columns goes to `left`.
pub open spec fn wiped_center_x(x: int, left: int, width: int) -> int {
    if x >= left + width {
        x - width
    } else if x >= left {
        left
    } else {
        x
    }
}

/// The falling block of `q` is that of `p` after the columns `left..left + width` are
/// removed (see `wiped_points`); a player whose squares are all gone gets a new block (or a
/// pending timer where it cannot spawn) and loses the "fast down" flag. The held block
/// stays, and so do the next block and the flag of the other players. (A center that would
/// come near the limits of `i32` does not move.)
pub open spec fn block_wiped(p: Player, q: Player, left: int, width: int) -> bool {
    &&& q.block_in_hold == p.block_in_hold
    &&& if wiped_away(p, left, width) { !q.fast_down } else { q.next_block == p.next_block && q.fast_down == p.fast_down }
    &&& match p.block_or_timer {
        BlockOrTimer::Block(b) => {
            let pts = wiped_points(add_center(b.center, b.relative_coords@), left, width);
            let c = (wiped_center_x(b.center.0 as int, left, width) as i32, b.center.1);
            if pts.len() == 0 {
                q.block_or_timer is TimerPending || (q.block_or_timer matches BlockOrTimer::Block(nb)
                    && is_spawned(p.next_block, nb, p.spawn_point))
            } else if crate::game_logic::blocks::center_ok(c) {
                &&& q.block_or_timer matches BlockOrTimer::Block(nb)
                &&& nb.center == c
                &&& add_center(nb.center, nb.relative_coords@) == pts
                &&& nb.square_content == b.square_content
                &&& nb.rotate_mode == b.rotate_mode
                &&& nb.has_been_in_hold == b.has_been_in_hold
            } else {
                q.block_or_timer == p.block_or_timer
            }
        },
        _ => q.block_or_timer == p.block_or_timer,
    }
}

/// Every square of the falling block of `p` is in the columns `left..left + width`.
pub open spec fn wiped_away(p: Player, left: int, width: int) -> bool {
    p.block_or_timer matches BlockOrTimer::Block(b) && wiped_points(add_center(b.center, b.relative_coords@), left, width).len() == 0
}

/// Like `block_wiped`, before the players whose squares are all gone get new blocks.
pub open spec fn block_shifted(p: Player, q: Player, left: int, width: int) -> bool {
    if wiped_away(p, left, width) {
        q == p
    } else {
        block_wiped(p, q, left, width)
    }
}

/// `q` is `p` with a new block from its next block (or a pending timer).
pub open spec fn respawned(p: Player, q: Player) -> bool {
    &&& same_identity(q, p)
    &&& q.block_in_hold == p.block_in_hold
    &&& !q.fast_down
    &&& q.block_or_timer is TimerPending || (q.block_or_timer matches BlockOrTimer::Block(nb) && is_spawned(p.next_block, nb, p.spawn_point))
}

/// The block of player `q` is that of `p` moved `dx` columns sideways.
pub open spec fn block_moved_sideways(p: Player, q: Player, dx: int) -> bool {
    &&& p.block_or_timer matches BlockOrTimer::Block(b)
    &&& q.block_or_timer matches BlockOrTimer::Block(nb)
    &&& nb.center == ((b.center.0 + dx) as i32, b.center.1)
    &&& nb.relative_coords@ == b.relative_coords@
    &&& nb.square_content == b.square_content
    &&& nb.rotate_mode == b.rotate_mode
}

/// The index of the first player with the client id, or -1 if there is none.
pub open spec fn first_player_with(players: Seq<Player>, client_id: u64) -> int
    decreases players.len(),
{
    if players.len() == 0 {
        -1
    } else {
        let earlier = first_player_with(players.drop_last(), client_id);
        if earlier >= 0 {
            earlier
        } else if players.last().client_id == client_id {
            players.len() - 1
        } else {
            -1
        }
    }
}

pub proof fn lemma_first_player_with(players: Seq<Player>, client_id: u64)
    ensures
        -1 <= first_player_with(players, client_id) < players.len(),
        first_player_with(players, client_id) >= 0 ==> players[first_player_with(players, client_id)].client_id == client_id,
        first_player_with(players, client_id) >= 0 ==> forall|j: int| 0 <= j < first_player_with(players, client_id) ==> #[trigger] players[j].client_id != client_id,
        first_player_with(players, client_id) == -1 <==> forall|j: int| 0 <= j < players.len() ==> #[trigger] players[j].client_id != client_id,
    decreases players.len(),
{
    if players.len() > 0 {
        lemma_first_player_with(players.drop_last(), client_id);
        assert forall|j: int| 0 <= j < players.len() - 1 implies players.drop_last()[j] == #[trigger] players[j] by {}
    }
}

proof fn lemma_first_player_prefix(players: Seq<Player>, client_id: u64, n: int)
    requires
        0 <= n <= players.len(),
        first_player_with(players.take(n), client_id) >= 0,
    ensures
        first_player_with(players, client_id) == first_player_with(players.take(n), client_id),
    decreases players.len() - n,
{
    if n < players.len() {
        assert(players.drop_last().take(n) =~= players.take(n));
        lemma_first_player_prefix(players.drop_last(), client_id, n);
    } else {
        assert(players.take(n) =~= players);
    }
}

/// The client ids of the players with pending timers, in order.
pub open spec fn pending_ids(players: Seq<Player>) -> Seq<u64>
    decreases players.len(),
{
    if players.len() == 0 {
        Seq::empty()
    } else if players.last().block_or_timer is TimerPending {
        pending_ids(players.drop_last()).push(players.last().client_id)
    } else {
        pending_ids(players.drop_last())
    }
}

/// The points among the first `n` that satisfy `pred`, in order.
pub open spec fn filter_points(s: Seq<WorldPoint>, pred: spec_fn(WorldPoint) -> bool, n: int) -> Seq<WorldPoint>
    decreases n,
{
    if n <= 0 {
        Seq::empty()
    } else if pred(s[n - 1]) {
        filter_points(s, pred, n - 1).push(s[n - 1])
    } else {
        filter_points(s, pred, n - 1)
    }
}

/// The world points of the first `n` cells of a row (row `y`, array place = world point +
/// offset) whose squares satisfy `pred`, left to right.
pub open spec fn row_cells_matching(row: Seq<Option<SquareContent>>, y: int, offset: (int, int), pred: spec_fn(WorldPoint, SquareContent) -> bool, n: int) -> Seq<WorldPoint>
    decreases n,
{
    if n <= 0 {
        Seq::empty()
    } else {
        let earlier = row_cells_matching(row, y, offset, pred, n - 1);
        let p = ((n - 1 - offset.0) as i16, (y - offset.1) as i16);
        match row[n - 1] {
            Some(c) => if pred(p, c) { earlier.push(p) } else { earlier },
            None => earlier,
        }
    }
}

/// The world points of the cells in the first `n` rows whose squares satisfy `pred`, row by
/// row.
pub open spec fn cells_matching(rows: Seq<Seq<Option<SquareContent>>>, offset: (int, int), pred: spec_fn(WorldPoint, SquareContent) -> bool, n: int) -> Seq<WorldPoint>
    decreases n,
{
    if n <= 0 {
        Seq::empty()
    } else {
        cells_matching(rows, offset, pred, n - 1) + row_cells_matching(rows[n - 1], n - 1, offset, pred, rows[n - 1].len() as int)
    }
}

/// A falling block whose bomb has not started ticking.
pub open spec fn is_new_bomb(p: Player) -> bool {
    p.block_or_timer matches BlockOrTimer::Block(b) && (b.square_content matches SquareContent::Bomb { id, .. } && id is None)
}

/// How many of the players have bombs that have not started ticking.
pub open spec fn new_bomb_count(players: Seq<Player>) -> nat
    decreases players.len(),
{
    if players.len() == 0 {
        0
    } else {
        new_bomb_count(players.drop_last()) + if is_new_bomb(players.last()) { 1nat } else { 0 }
    }
}

/// `b` is `a` with other content.
pub open spec fn same_block_except_content(a: FallingBlock, b: FallingBlock) -> bool {
    &&& b.relative_coords == a.relative_coords
    &&& b.center == a.center
    &&& b.rotate_mode == a.rotate_mode
    &&& b.has_been_in_hold == a.has_been_in_hold
}

/// Whether the content is a bomb with the id.
pub open spec fn is_bomb_with_id(c: SquareContent, bomb_id: u64) -> bool {
    c matches SquareContent::Bomb { id, .. } && id == Some(bomb_id)
}

/// A bomb with the id after one tick of its timer (which stops at zero).
pub open spec fn ticked(c: SquareContent, bomb_id: u64) -> SquareContent {
    match c {
        SquareContent::Bomb { timer, id } => if id == Some(bomb_id) {
            SquareContent::Bomb { timer: if timer > 0 { (timer - 1) as u8 } else { 0 }, id }
        } else {
            c
        },
        other => other,
    }
}

/// Whether the content is a bomb whose timer is zero.
pub open spec fn exploding(c: SquareContent) -> bool {
    c matches SquareContent::Bomb { timer, .. } && timer == 0
}

/// The falling squares that explode when the bomb with the id ticks, player by player.
pub open spec fn falling_exploding(players: Seq<Player>, bomb_id: u64) -> Seq<WorldPoint>
    decreases players.len(),
{
    if players.len() == 0 {
        Seq::empty()
    } else {
        let p = players.last();
        falling_exploding(players.drop_last(), bomb_id) + match p.block_or_timer {
            BlockOrTimer::Block(b) => if is_bomb_with_id(b.square_content, bomb_id) && exploding(ticked(b.square_content, bomb_id)) {
                block_world_points(p)
            } else {
                Seq::empty()
            },
            _ => Seq::empty(),
        }
    }
}

/// The falling bomb squares at the flashing points that were not exploding already,
/// player by player.
pub open spec fn falling_bombs_hit(players: Seq<Player>, flashing: Seq<WorldPoint>, old_bombs: Seq<WorldPoint>) -> Seq<WorldPoint>
    decreases players.len(),
{
    if players.len() == 0 {
        Seq::empty()
    } else {
        let p = players.last();
        falling_bombs_hit(players.drop_last(), flashing, old_bombs) + match p.block_or_timer {
            BlockOrTimer::Block(b) => if b.square_content is Bomb {
                filter_points(block_world_points(p), |q: WorldPoint| flashing.contains(q) && !old_bombs.contains(q), block_world_points(p).len() as int)
            } else {
                Seq::empty()
            },
            _ => Seq::empty(),
        }
    }
}

/// The landed squares after the bombs with the id tick.
pub open spec fn rows_ticked(rows: Seq<Seq<Option<SquareContent>>>, bomb_id: u64) -> Seq<Seq<Option<SquareContent>>> {
    Seq::new(rows.len(), |y: int| Seq::new(rows[y].len(), |x: int| match rows[y][x] {
        Some(c) => Some(ticked(c, bomb_id)),
        None => None,
    }))
}

/// Whether a landed square is a bomb with the id that explodes when it ticks.
pub open spec fn landed_exploding(bomb_id: u64) -> spec_fn(WorldPoint, SquareContent) -> bool {
    |p: WorldPoint, c: SquareContent| is_bomb_with_id(c, bomb_id) && exploding(ticked(c, bomb_id))
}

/// Whether a landed square at a point is a bomb hit by the explosion (flashing) but not
/// exploding already.
pub open spec fn bomb_hit(flashing: Seq<WorldPoint>, old_bombs: Seq<WorldPoint>) -> spec_fn(WorldPoint, SquareContent) -> bool {
    |p: WorldPoint, c: SquareContent| c is Bomb && flashing.contains(p) && !old_bombs.contains(p)
}

/// Whether a point is inside the circle of radius 3.5 around a bomb.
pub open spec fn in_blast(center: WorldPoint, p: WorldPoint) -> bool {
    let dx = p.0 - center.0;
    let dy = p.1 - center.1;
    dx * dx + dy * dy <= 12
}

/// Whether a point has been found to flash: it is in the playing area and near one of the
/// first `k` bombs, or near bomb `c` and before (dx, dy) in the order of the search.
pub open spec fn flashed_so_far(game: Game, centers: Seq<WorldPoint>, k: int, c: WorldPoint, dx: int, dy: int, p: WorldPoint) -> bool {
    game.valid_landed(p) && ((exists|q: int| 0 <= q < k && in_blast(#[trigger] centers[q], p))
        || (in_blast(c, p) && (p.0 - c.0 < dx || (p.0 - c.0 == dx && p.1 - c.1 < dy))))
}

proof fn lemma_blast_bounds(c: WorldPoint, p: WorldPoint)
    ensures
        in_blast(c, p) ==> -3 <= p.0 - c.0 <= 3 && -3 <= p.1 - c.1 <= 3,
{
    let dx = p.0 - c.0;
    let dy = p.1 - c.1;
    assert(dx * dx >= 0 && dy * dy >= 0) by (nonlinear_arith);
    assert(dx * dx <= 12 ==> -3 <= dx <= 3) by (nonlinear_arith);
    assert(dy * dy <= 12 ==> -3 <= dy <= 3) by (nonlinear_arith);
}

/// Where player `i` of `n` starts in a traditional game (the middle of the player's part)
/// and in a bottle game (the middle of the player's bottle).
pub open spec fn spawn_point_spec(mode: Mode, n: int, i: int) -> PlayerPoint {
    match mode {
        Mode::Traditional => {
            let w = width_per_player_spec(n);
            ((i * w + w / 2) as i32, 0i32)
        },
        _ => ((10 * i + 4) as i32, 0i32),
    }
}

/// The directions in which a new player of a ring game may fall, best first: opposite to
/// the existing players, then down, up, right and left.
pub open spec fn direction_candidates(players: Seq<Player>) -> Seq<WorldPoint> {
    players.map_values(|p: Player| ((-p.down_direction.0) as i16, (-p.down_direction.1) as i16))
        + seq![(0i16, 1i16), (0i16, -1i16), (1i16, 0i16), (-1i16, 0i16)]
}

/// The directions in which the players fall.
pub open spec fn used_directions(players: Seq<Player>) -> Seq<WorldPoint> {
    players.map_values(|p: Player| p.down_direction)
}

/// The first candidate that is not used.
pub open spec fn first_unused(candidates: Seq<WorldPoint>, used: Seq<WorldPoint>) -> Option<WorldPoint>
    decreases candidates.len(),
{
    if candidates.len() == 0 {
        None
    } else if !used.contains(candidates[0]) {
        Some(candidates[0])
    } else {
        first_unused(candidates.subrange(1, candidates.len() as int), used)
    }
}

/// The square on the wall between two bottles, colored like the two players.
pub open spec fn bottle_wall(left_color: u8, right_color: u8) -> SquareContent {
    SquareContent::Normal([('|', Color { fg: left_color, bg: 0 }), ('|', Color { fg: right_color, bg: 0 })])
}

proof fn lemma_some_direction_unused(players: Seq<Player>)
    requires
        players.len() < 4,
    ensures
        first_unused(direction_candidates(players), used_directions(players)) is Some,
{
    let used = used_directions(players);
    let cands = direction_candidates(players);
    let n = players.len() as int;
    lemma_first_unused_found(cands, used);
    let dirs = seq![(0i16, 1i16), (0i16, -1i16), (1i16, 0i16), (-1i16, 0i16)];
    if forall|k: int| 0 <= k < 4 ==> used.contains(#[trigger] dirs[k]) {
        assert(used.contains(dirs[0]));
        assert(used.contains(dirs[1]));
        assert(used.contains(dirs[2]));
        assert(used.contains(dirs[3]));
        let a = choose|i: int| 0 <= i < used.len() && used[i] == dirs[0];
        let b = choose|i: int| 0 <= i < used.len() && used[i] == dirs[1];
        let c = choose|i: int| 0 <= i < used.len() && used[i] == dirs[2];
        let d = choose|i: int| 0 <= i < used.len() && used[i] == dirs[3];
        assert(false);
    } else {
        let k = choose|k: int| 0 <= k < 4 && !used.contains(#[trigger] dirs[k]);
        assert(cands[n + k] == dirs[k]);
    }
}

/// If some candidate is not used, `first_unused` finds one.
proof fn lemma_first_unused_found(cands: Seq<WorldPoint>, used: Seq<WorldPoint>)
    ensures
        (exists|k: int| 0 <= k < cands.len() && !used.contains(#[trigger] cands[k])) ==> first_unused(cands, used) is Some,
        first_unused(cands, used) matches Some(c) ==> cands.contains(c) && !used.contains(c),
    decreases cands.len(),
{
    if cands.len() > 0 {
        let rest = cands.subrange(1, cands.len() as int);
        lemma_first_unused_found(rest, used);
        if exists|k: int| 0 <= k < cands.len() && !used.contains(#[trigger] cands[k]) {
            let k = choose|k: int| 0 <= k < cands.len() && !used.contains(#[trigger] cands[k]);
            if k > 0 && used.contains(cands[0]) {
                assert(rest[k - 1] == cands[k]);
            }
        }
        if first_unused(cands, used) is Some && used.contains(cands[0]) {
            let c = first_unused(cands, used).unwrap();
            let j = choose|j: int| 0 <= j < rest.len() && rest[j] == c;
            assert(cands[j + 1] == c);
        }
        if !used.contains(cands[0]) {
            assert(cands.contains(cands[0])) by {
                assert(cands[0] == cands[0]);
            }
        }
    }
}

proof fn lemma_candidates_are_directions(players: Seq<Player>, k: int)
    requires
        forall|i: int| 0 <= i < players.len() ==> #[trigger] players[i].wf(),
        0 <= k < direction_candidates(players).len(),
    ensures
        crate::game_logic::player::is_down_direction(direction_candidates(players)[k]),
{
    if k < players.len() {
        assert(players[k].wf());
    }
}

/// The columns removed when player `i` of `n` leaves: (first column, number of columns).
/// In a traditional game that is the player's part (less when the others get wider parts);
/// in a bottle game the player's bottle and a wall next to it (for the last bottle, the wall
/// on its left, so that every row keeps the width of the game).
pub open spec fn removed_slice(mode: Mode, n: int, i: int) -> (int, int) {
    match mode {
        Mode::Traditional => (width_per_player_spec(n) * i, width_spec(mode, n) - width_spec(mode, n - 1)),
        _ => if n == 1 {
            (0, 9)
        } else if i == 0 {
            (0, 10)
        } else if i == n - 1 {
            (10 * i - 1, 10)
        } else {
            (10 * i, 10)
        },
    }
}

/// A game in progress: players, their falling blocks and the landed squares.
pub struct Game {
    pub players: Vec<Player>,
    /// Points that flash before a bomb explosion, and how long they have flashed.
    pub flashing_points: Vec<(WorldPoint, u8)>,
    pub mode: Mode,
    pub landed_rows: Vec<Vec<Option<SquareContent>>>,
    pub score: usize,
    pub bomb_id_counter: u64,
    pub block_factory: BlockFactory,
}

impl Game {
    /// The landed squares, row by row.
    pub open spec fn rows(&self) -> Seq<Seq<Option<SquareContent>>> {
        self.landed_rows@.map_values(|row: Vec<Option<SquareContent>>| row@)
    }

    /// The number of rows.
    pub open spec fn height(&self) -> int {
        self.rows().len() as int
    }

    /// The number of columns.
    pub open spec fn width(&self) -> int {
        width_spec(self.mode, self.players@.len() as int)
    }

    /// Whether a world point is inside the playing area.
    pub open spec fn valid_landed(&self, p: WorldPoint) -> bool {
        valid_landed_spec(self.mode, self.width(), self.height(), p)
    }

    /// Whether a world point has a place in the array of landed squares.
    pub open spec fn in_array(&self, p: WorldPoint) -> bool {
        let (ox, oy) = center_offset(self.mode);
        0 <= p.1 + oy < self.height() && 0 <= p.0 + ox < self.width()
    }

    /// The landed square at a world point.
    pub open spec fn landed(&self, p: WorldPoint) -> Option<SquareContent> {
        let (ox, oy) = center_offset(self.mode);
        self.rows()[p.1 + oy][p.0 + ox]
    }

    /// The square at a point: the landed one if there is one, else a falling one.
    pub open spec fn any_square_spec(&self, p: WorldPoint, exclude: Option<usize>) -> Option<SquareContent> {
        if self.valid_landed(p) && self.landed(p) is Some {
            self.landed(p)
        } else {
            match falling_square_spec(self.players@, p, exclude) {
                Some((content, _, _)) => Some(content),
                None => None,
            }
        }
    }

    /// In ring mode, for the rings at distance 4 to `upto` from the center: the points of
    /// the full rings, inner rings first, and how many are full.
    pub open spec fn ring_full(&self, upto: int) -> (Seq<WorldPoint>, nat)
        decreases upto,
    {
        if upto <= 3 {
            (Seq::empty(), 0)
        } else {
            let (points, count) = self.ring_full(upto - 1);
            if forall|k: int| 0 <= k < ring_points(upto).len() ==> #[trigger] self.landed(ring_points(upto)[k]) is Some {
                (points + ring_points(upto), count + 1)
            } else {
                (points, count)
            }
        }
    }

    /// The points of the full rows (rings in ring mode), the number of full parts of
    /// personal spaces (bottle mode), and the number of full rows shared by everyone.
    pub open spec fn full_rows_spec(&self) -> (Seq<WorldPoint>, nat, nat) {
        match self.mode {
            Mode::Traditional => {
                let (points, count) = traditional_full(self.rows(), self.width(), self.height());
                (points, 0, count)
            },
            Mode::Bottle => bottle_full(self.rows(), self.width(), self.players@.len() as int, self.height()),
            Mode::Ring => {
                let (points, count) = self.ring_full(18);
                (points, 0, count)
            },
        }
    }

    /// What finding the full rows adds to the score: shared rows count more with more
    /// players.
    pub open spec fn full_rows_score(&self) -> nat {
        let (_, single, everyone) = self.full_rows_spec();
        clear_score(single) + clear_score(everyone) * player_multiplier(self.players@.len() as nat)
    }

    /// The landed squares after removing the full rows marked in `full`, before the squares
    /// under falling blocks are emptied.
    pub open spec fn removed_rows_spec(&self, full: Seq<WorldPoint>) -> Seq<Seq<Option<SquareContent>>> {
        match self.mode {
            Mode::Traditional => traditional_removed(self.rows(), full, self.width()),
            Mode::Bottle => bottle_removed(self.rows(), full, self.width()),
            Mode::Ring => ring_collapses(rows_without(self.rows(), full, (18, 18)), full, 1),
        }
    }

    /// `rows` with the valid points of `points` emptied.
    pub open spec fn emptied_at(&self, rows: Seq<Seq<Option<SquareContent>>>, points: Seq<WorldPoint>) -> Seq<Seq<Option<SquareContent>>> {
        let (ox, oy) = center_offset(self.mode);
        Seq::new(rows.len(), |y: int| Seq::new(rows[y].len(), |x: int| {
            let p = ((x - ox) as i16, (y - oy) as i16);
            if self.valid_landed(p) && points.contains(p) {
                None
            } else {
                rows[y][x]
            }
        }))
    }

    /// `rows` with the valid points under the players' falling blocks emptied.
    pub open spec fn without_falling(&self, rows: Seq<Seq<Option<SquareContent>>>) -> Seq<Seq<Option<SquareContent>>> {
        self.emptied_at(rows, falling_points(self.players@))
    }

    /// Whether `rotate_if_possible` turns the block of player `i`.
    pub open spec fn rotate_condition(&self, i: int, prefer_counter_clockwise: bool) -> bool {
        self.players@[i].block_or_timer matches BlockOrTimer::Block(b)
            && self.fits(i, add_center(b.center, crate::game_logic::blocks::rotated_relative(b.relative_coords@, b.rotate_mode, prefer_counter_clockwise)))
    }

    /// Whether `move_if_possible` moves the block of player `i`.
    pub open spec fn move_condition(&self, i: int, dx: int, dy: int, enable_drilling: bool) -> bool {
        self.players@[i].block_or_timer matches BlockOrTimer::Block(b)
            && crate::game_logic::blocks::center_ok(((b.center.0 + dx) as i32, (b.center.1 + dy) as i32))
            && self.fits_drilling(i, Self::moved_coords(b, dx, dy), b.square_content, enable_drilling)
    }

    /// Whether `flip_view` turns the view.
    pub open spec fn flip_condition(&self) -> bool {
        self.mode == Mode::Ring && self.players@.len() == 1
            && self.players@[0].block_or_timer is Block
            && forall|k: int| 0 <= k < self.players@[0].block_or_timer.spec_coords().len() ==> {
                let c = #[trigger] self.players@[0].block_or_timer.spec_coords()[k];
                let flipped = player_to_world_spec(self.players@[0].down_direction, ((-c.0) as i32, (-c.1) as i32));
                !(self.valid_landed(flipped) && self.landed(flipped) is Some)
            }
    }

    /// Whether `hold_block` puts the block of player `i` into the hold.
    pub open spec fn hold_condition(&self, i: int) -> bool {
        self.players@[i].block_or_timer matches BlockOrTimer::Block(b) && !b.has_been_in_hold
    }

    /// The sizes fit the mode and the number of players, and every player is well formed.
    pub open spec fn wf(&self) -> bool {
        self.wf_with_width(self.width())
    }

    /// Like `wf`, but the rows have `w` cells (for the moment between a player leaving and
    /// the player's part being removed).
    pub open spec fn wf_with_width(&self, w: int) -> bool {
        &&& self.players@.len() <= self.mode.spec_max_players()
        &&& match self.mode {
            Mode::Traditional => self.landed_rows@.len() <= 20,
            Mode::Bottle => self.landed_rows@.len() == 21,
            Mode::Ring => self.landed_rows@.len() == 37,
        }
        &&& forall|y: int| 0 <= y < self.landed_rows@.len() ==> #[trigger] self.landed_rows@[y]@.len() == w
        &&& forall|i: int| 0 <= i < self.players@.len() ==> #[trigger] self.players@[i].wf()
        &&& self.mode != Mode::Ring ==> forall|i: int| 0 <= i < self.players@.len() ==> #[trigger] self.players@[i].down_direction == (0i16, 1i16)
    }

    pub proof fn lemma_wf_bounds(&self)
        requires
            self.wf(),
        ensures
            self.players@.len() <= 6,
            self.height() <= 37,
            0 <= self.width() <= 59,
            self.mode == Mode::Ring ==> self.height() == 37,
            self.mode == Mode::Bottle ==> self.height() == 21,
            forall|y: int| 0 <= y < self.height() ==> #[trigger] self.rows()[y].len() == self.width(),
            forall|p: WorldPoint| #[trigger] self.valid_landed(p) ==> self.in_array(p),
    {
        assert forall|y: int| 0 <= y < self.height() implies #[trigger] self.rows()[y].len() == self.width() by {
            assert(self.rows()[y] == self.landed_rows@[y]@);
        }
    }

    /// A game without players. The playing area is 20 rows high in a traditional game,
    /// 21 in a bottle game and 37 by 37 in a ring game; it widens as players join.
    pub fn new(mode: Mode) -> (r: Game)
        ensures
            r.wf(),
            r.mode == mode,
            r.players@.len() == 0,
            r.flashing_points@.len() == 0,
            r.score == 0,
            r.bomb_id_counter == 0,
            r.block_factory == BlockFactory::FromScore,
            r.height() == match mode {
                Mode::Traditional => 20int,
                Mode::Bottle => 21,
                Mode::Ring => 37,
            },
            forall|y: int, x: int| 0 <= y < r.height() && 0 <= x < r.width() ==> #[trigger] r.rows()[y][x] is None,
    {
        let (height, width): (usize, usize) = match mode {
            Mode::Traditional => (20, 0),
            Mode::Bottle => (BOTTLE_HEIGHT, 0),
            Mode::Ring => (2 * RING_OUTER_RADIUS + 1, 2 * RING_OUTER_RADIUS + 1),
        };
        let mut landed_rows: Vec<Vec<Option<SquareContent>>> = Vec::new();
        for y in 0..height
            invariant
                landed_rows@.len() == y,
                forall|k: int| 0 <= k < y ==> #[trigger] landed_rows@[k]@.len() == width,
                forall|k: int, x: int| 0 <= k < y && 0 <= x < width ==> #[trigger] landed_rows@[k]@[x] is None,
        {
            let mut row: Vec<Option<SquareContent>> = Vec::new();
            for x in 0..width
                invariant
                    row@.len() == x,
                    forall|j: int| 0 <= j < x ==> #[trigger] row@[j] is None,
            {
                row.push(None);
            }
            landed_rows.push(row);
        }
        let r = Game {
            players: Vec::new(),
            flashing_points: Vec::new(),
            mode,
            landed_rows,
            score: 0,
            bomb_id_counter: 0,
            block_factory: BlockFactory::FromScore,
        };
        proof {
            assert forall|y: int, x: int| 0 <= y < r.height() && 0 <= x < r.width() implies #[trigger] r.rows()[y][x] is None by {
                assert(r.rows()[y] == r.landed_rows@[y]@);
            }
        }
        r
    }

    /// Where new blocks come from (normally random blocks depending on the score).
    pub fn set_block_factory(&mut self, factory: BlockFactory)
        ensures
            game_step(*old(self), *final(self)),
            final(self).block_factory == factory,
            final(self).players == old(self).players,
            final(self).mode == old(self).mode,
            final(self).rows() == old(self).rows(),
            final(self).score == old(self).score,
            final(self).bomb_id_counter == old(self).bomb_id_counter,
            old(self).wf() ==> final(self).wf(),
    {
        self.block_factory = factory;
    }

    /// Keeps only the first `new_height` rows of a traditional game (a smaller game is
    /// easier to look at in tests).
    pub fn truncate_height(&mut self, new_height: usize)
        requires
            old(self).wf(),
            old(self).mode == Mode::Traditional,
        ensures
            final(self).wf(),
            final(self).rows() == old(self).rows().take(
                if new_height < old(self).height() { new_height as int } else { old(self).height() },
            ),
            final(self).players == old(self).players,
            final(self).mode == old(self).mode,
            final(self).score == old(self).score,
            final(self).block_factory == old(self).block_factory,
            final(self).bomb_id_counter == old(self).bomb_id_counter,
    {
        self.landed_rows.truncate(new_height);
        proof {
            assert(self.rows() =~= old(self).rows().take(
                if new_height < old(self).height() { new_height as int } else { old(self).height() },
            ));
        }
    }

    /// The score of the game.
    pub fn get_score(&self) -> (r: usize)
        ensures
            r == self.score,
    {
        self.score
    }

    /// The width of each player's area in a traditional game.
    pub fn get_width_per_player(&self) -> (r: Option<usize>)
        ensures
            r == match self.mode {
                Mode::Traditional => Some(width_per_player_spec(self.players@.len() as int) as usize),
                _ => None,
            },
    {
        match self.mode {
            Mode::Traditional => if self.players.len() >= 2 {
                Some(7)
            } else {
                Some(10)
            },
            Mode::Bottle | Mode::Ring => None,
        }
    }

    /// The width of the playing area.
    pub fn get_width(&self) -> (r: usize)
        requires
            self.wf(),
            self.mode == Mode::Bottle ==> self.players@.len() > 0,
        ensures
            r == self.width(),
    {
        proof {
            self.lemma_wf_bounds();
        }
        match self.mode {
            Mode::Traditional => if self.players.len() >= 2 {
                7 * self.players.len()
            } else {
                10 * self.players.len()
            },
            Mode::Bottle => BOTTLE_OUTER_WIDTH * self.players.len() - 1,
            Mode::Ring => 2 * RING_OUTER_RADIUS + 1,
        }
    }

    /// The number of rows.
    pub fn get_height(&self) -> (r: usize)
        ensures
            r == self.height(),
    {
        self.landed_rows.len()
    }

    /// Where world point (0, 0) is in the array of landed squares.
    fn get_center_offset(&self) -> (r: (i16, i16))
        ensures
            r.0 == center_offset(self.mode).0,
            r.1 == center_offset(self.mode).1,
    {
        match self.mode {
            Mode::Traditional | Mode::Bottle => (0, 0),
            Mode::Ring => (RING_OUTER_RADIUS as i16, RING_OUTER_RADIUS as i16),
        }
    }

    /// For the user interface: (x_min, x_max + 1, y_min, y_max + 1) in player coordinates.
    pub fn get_bounds_in_player_coords(&self) -> (r: (i32, i32, i32, i32))
        requires
            self.wf(),
            self.mode == Mode::Bottle ==> self.players@.len() > 0,
        ensures
            r == match self.mode {
                Mode::Ring => (-18i32, 19i32, -18i32, 19i32),
                _ => (0i32, self.width() as i32, 0i32, self.height() as i32),
            },
    {
        proof {
            self.lemma_wf_bounds();
        }
        match self.mode {
            Mode::Traditional | Mode::Bottle => (0, self.get_width() as i32, 0, self.get_height() as i32),
            Mode::Ring => {
                let r = RING_OUTER_RADIUS as i32;
                (-r, r + 1, -r, r + 1)
            },
        }
    }

    /// Whether a world point is inside the playing area.
    pub fn is_valid_landed_block_coords(&self, point: WorldPoint) -> (r: bool)
        requires
            self.wf(),
        ensures
            r == self.valid_landed(point),
    {
        proof {
            self.lemma_wf_bounds();
        }
        let (x, y) = point;
        let h = self.landed_rows.len() as i16;
        match self.mode {
            Mode::Traditional => {
                let w = if self.players.len() >= 2 {
                    7 * self.players.len() as i16
                } else {
                    10 * self.players.len() as i16
                };
                0 <= x && x < w && 0 <= y && y < h
            },
            Mode::Bottle => {
                let w = if self.players.len() == 0 {
                    0
                } else {
                    10 * self.players.len() as i16 - 1
                };
                if !(0 <= x && x < w && 0 <= y && y < h) {
                    false
                } else if x % 10 == 9 {
                    // on the wall between two players, not allowed near the top
                    y >= 9
                } else {
                    let left: i16 = if y <= 5 {
                        2
                    } else if y <= 7 {
                        1
                    } else {
                        0
                    };
                    left <= x % 10 && x % 10 < 9 - left
                }
            },
            Mode::Ring => {
                let ax = if x < 0 { -(x as i32) } else { x as i32 };
                let ay = if y < 0 { -(y as i32) } else { y as i32 };
                let m = if ax < ay { ay } else { ax };
                m <= 18 && m > 3 && ax + ay <= 29
            },
        }
    }

    /// The landed square at a world point.
    pub fn get_landed_square(&self, point: WorldPoint) -> (r: Option<SquareContent>)
        requires
            self.wf(),
            self.in_array(point),
        ensures
            r == self.landed(point),
    {
        proof {
            self.lemma_wf_bounds();
        }
        let (x, y) = point;
        let (offset_x, offset_y) = self.get_center_offset();
        self.landed_rows[(y + offset_y) as usize][(x + offset_x) as usize]
    }

    /// Puts a landed square (or nothing) at a world point.
    pub fn set_landed_square(&mut self, point: WorldPoint, value: Option<SquareContent>)
        requires
            old(self).wf(),
            old(self).in_array(point),
        ensures
            game_step(*old(self), *final(self)),
            final(self).wf(),
            final(self).players == old(self).players,
            final(self).mode == old(self).mode,
            final(self).flashing_points == old(self).flashing_points,
            final(self).score == old(self).score,
            final(self).bomb_id_counter == old(self).bomb_id_counter,
            final(self).block_factory == old(self).block_factory,
            final(self).height() == old(self).height(),
            final(self).landed(point) == value,
            forall|p: WorldPoint| #[trigger] old(self).in_array(p) && p != point ==> final(self).landed(p) == old(self).landed(p),
    {
        proof {
            self.lemma_wf_bounds();
        }
        let (x, y) = point;
        let (offset_x, offset_y) = self.get_center_offset();
        let row_index = (y + offset_y) as usize;
        let column = (x + offset_x) as usize;
        self.landed_rows[row_index][column] = value;
        proof {
            assert forall|p: WorldPoint| #[trigger] old(self).in_array(p) && p != point implies self.landed(p) == old(self).landed(p) by {
                let (ox, oy) = center_offset(self.mode);
                if p.1 + oy == row_index {
                    assert(p.0 + ox != column);
                }
            }
            assert(self.landed(point) == value);
        }
    }

    /// A falling square at a world point: its content, its place relative to the center of
    /// its block and the index of its player, for the first player other than `exclude`
    /// whose block covers the point.
    pub fn get_moving_square(&self, point: WorldPoint, exclude_player_idx: Option<usize>) -> (r: Option<(SquareContent, BlockRelativeCoords, usize)>)
        requires
            self.wf(),
        ensures
            r == falling_square_spec(self.players@, point, exclude_player_idx),
    {
        let mut i: usize = 0;
        while i < self.players.len()
            invariant
                i <= self.players@.len(),
                self.wf(),
                falling_square_spec(self.players@.take(i as int), point, exclude_player_idx) is None,
            decreases self.players@.len() - i,
        {
            proof {
                assert(self.players@.take(i + 1).drop_last() =~= self.players@.take(i as int));
                assert(self.players@.take(i + 1).last() == self.players@[i as int]);
                assert(self.players@[i as int].wf());
            }
            let excluded = match exclude_player_idx {
                Some(e) => e == i,
                None => false,
            };
            if !excluded {
                let player = &self.players[i];
                if let BlockOrTimer::Block(block) = &player.block_or_timer {
                    let coords = block.get_coords();
                    let relative = block.get_relative_coords();
                    let ghost world = block_world_points(*player);
                    let mut k: usize = 0;
                    while k < coords.len()
                        invariant
                            k <= coords@.len(),
                            i < self.players@.len(),
                            self.wf(),
                            *player == self.players@[i as int],
                            player.block_or_timer == BlockOrTimer::Block(*block),
                            relative@ == block.relative_coords@,
                            exclude_player_idx != Some(i),
                            falling_square_spec(self.players@.take(i as int), point, exclude_player_idx) is None,
                            coords@ == player.block_or_timer.spec_coords(),
                            world == block_world_points(*player),
                            world.len() == coords@.len(),
                            first_index(world.take(k as int), point) is None,
                        decreases coords@.len() - k,
                    {
                        proof {
                            assert(world.take(k + 1).drop_last() =~= world.take(k as int));
                        }
                        let w = player.player_to_world(coords[k]);
                        if w.0 == point.0 && w.1 == point.1 {
                            proof {
                                assert(world[k as int] == point);
                                assert(first_index(world.take(k + 1), point) == Some(k as int));
                                lemma_first_index_prefix(world, point, k + 1);
                                assert(world.take(world.len() as int) =~= world);
                                assert(self.players@.take(i + 1).drop_last() =~= self.players@.take(i as int));
                                assert(self.players@.take(i + 1).last() == self.players@[i as int]);
                                assert(falling_square_spec(self.players@.take(i + 1), point, exclude_player_idx)
                                    == Some((block.square_content, block.relative_coords@[k as int], i)));
                                lemma_falling_square_prefix(self.players@, point, exclude_player_idx, i + 1);
                                assert(self.players@.take(self.players@.len() as int) =~= self.players@);
                            }
                            return Some((block.square_content, relative[k], i));
                        }
                        k = k + 1;
                    }
                    proof {
                        assert(world.take(world.len() as int) =~= world);
                    }
                }
            }
            i = i + 1;
        }
        proof {
            assert(self.players@.take(self.players@.len() as int) =~= self.players@);
        }
        None
    }

    /// The falling square at a world point (see `get_moving_square`).
    pub fn get_falling_square(&self, point: WorldPoint) -> (r: Option<(SquareContent, BlockRelativeCoords, usize)>)
        requires
            self.wf(),
        ensures
            r == falling_square_spec(self.players@, point, None),
    {
        self.get_moving_square(point, None)
    }

    /// The square at a world point: a landed square if there is one, otherwise a falling
    /// square of a player other than `exclude_player_idx`.
    pub fn get_any_square(&self, point: WorldPoint, exclude_player_idx: Option<usize>) -> (r: Option<SquareContent>)
        requires
            self.wf(),
        ensures
            r == self.any_square_spec(point, exclude_player_idx),
    {
        proof {
            self.lemma_wf_bounds();
        }
        let landed = if self.is_valid_landed_block_coords(point) {
            self.get_landed_square(point)
        } else {
            None
        };
        match landed {
            Some(content) => Some(content),
            None => match self.get_moving_square(point, exclude_player_idx) {
                Some((content, _, _)) => Some(content),
                None => None,
            },
        }
    }

    /// Moves a landed square: the source becomes empty, and the destination gets the square
    /// if there was one (an empty source leaves the destination as it was).
    fn move_landed_square(&mut self, from: WorldPoint, to: WorldPoint)
        requires
            old(self).wf(),
            old(self).in_array(from),
            old(self).in_array(to),
        ensures
            final(self).wf(),
            final(self).players == old(self).players,
            final(self).mode == old(self).mode,
            final(self).flashing_points == old(self).flashing_points,
            final(self).score == old(self).score,
            final(self).bomb_id_counter == old(self).bomb_id_counter,
            final(self).block_factory == old(self).block_factory,
            final(self).height() == old(self).height(),
            forall|p: WorldPoint| #[trigger] old(self).in_array(p) ==> final(self).landed(p) == if p == to && old(self).landed(from) is Some {
                old(self).landed(from)
            } else if p == from {
                None
            } else {
                old(self).landed(p)
            },
    {
        let value_to_move = self.get_landed_square(from);
        self.set_landed_square(from, None);
        let ghost mid = *self;
        if value_to_move.is_some() {
            self.set_landed_square(to, value_to_move);
        }
        proof {
            assert forall|p: WorldPoint| #[trigger] old(self).in_array(p) implies self.landed(p) == if p == to && old(self).landed(from) is Some {
                old(self).landed(from)
            } else if p == from {
                None
            } else {
                old(self).landed(p)
            } by {
                assert(mid.in_array(p));
                if p != from {
                    assert(mid.landed(p) == old(self).landed(p));
                }
            }
        }
    }

    /// Whether there is a landed square at each of the points.
    fn all_landed(&self, points: &Vec<WorldPoint>) -> (r: bool)
        requires
            self.wf(),
            forall|k: int| 0 <= k < points@.len() ==> self.in_array(#[trigger] points@[k]),
        ensures
            r == forall|k: int| 0 <= k < points@.len() ==> #[trigger] self.landed(points@[k]) is Some,
    {
        let mut k: usize = 0;
        while k < points.len()
            invariant
                k <= points@.len(),
                self.wf(),
                forall|j: int| 0 <= j < points@.len() ==> self.in_array(#[trigger] points@[j]),
                forall|j: int| 0 <= j < k ==> #[trigger] self.landed(points@[j]) is Some,
            decreases points@.len() - k,
        {
            if self.get_landed_square(points[k]).is_none() {
                return false;
            }
            k = k + 1;
        }
        true
    }

    /// The full rows (see `full_rows_spec`): their points, the number of full parts of
    /// personal spaces and the number of full rows shared by everyone.
    fn full_rows_with_counts(&self) -> (r: (Vec<WorldPoint>, usize, usize))
        requires
            self.wf(),
        ensures
            r.0@ == self.full_rows_spec().0,
            r.1 == self.full_rows_spec().1,
            r.2 == self.full_rows_spec().2,
            r.1 <= 6 * 9,
            r.2 <= 37,
    {
        proof {
            self.lemma_wf_bounds();
        }
        let mut full_points: Vec<WorldPoint> = Vec::new();
        let mut single: usize = 0;
        let mut everyone: usize = 0;
        let h = self.landed_rows.len();
        match self.mode {
            Mode::Traditional => {
                let mut y: usize = 0;
                while y < h
                    invariant
                        y <= h == self.height(),
                        self.wf(),
                        self.mode == Mode::Traditional,
                        single == 0,
                        everyone <= y,
                        (full_points@, everyone as nat) == traditional_full(self.rows(), self.width(), y as int),
                    decreases h - y,
                {
                    proof {
                        self.lemma_wf_bounds();
                        assert(self.rows()[y as int] == self.landed_rows@[y as int]@);
                    }
                    let w = self.landed_rows[y].len();
                    if row_is_full(&self.landed_rows[y], 0, w) {
                        everyone = everyone + 1;
                        push_row_points(&mut full_points, y, 0, w);
                    }
                    y = y + 1;
                }
            },
            Mode::Bottle => {
                let n = self.players.len();
                let mut y: usize = 0;
                while y < h
                    invariant
                        y <= h == self.height(),
                        self.wf(),
                        self.mode == Mode::Bottle,
                        n == self.players@.len(),
                        single <= 6 * (if y < 9 { y as int } else { 9 }),
                        everyone <= y,
                        (full_points@, single as nat, everyone as nat) == bottle_full(self.rows(), self.width(), n as int, y as int),
                    decreases h - y,
                {
                    proof {
                        self.lemma_wf_bounds();
                        assert(self.rows()[y as int] == self.landed_rows@[y as int]@);
                    }
                    if y < BOTTLE_PERSONAL_SPACE_HEIGHT {
                        let ghost before = full_points@;
                        let ghost single_before = single;
                        let left_offset: usize = if y <= 5 {
                            2
                        } else if y <= 7 {
                            1
                        } else {
                            0
                        };
                        let mut i: usize = 0;
                        while i < n
                            invariant
                                i <= n == self.players@.len() <= 6,
                                y < 9,
                                y < h == self.height(),
                                self.wf(),
                                self.mode == Mode::Bottle,
                                left_offset == bottle_left(y as int),
                                single_before <= 6 * y,
                                single <= single_before + i,
                                full_points@ == before + bottle_personal_full(self.rows()[y as int], y as int, i as int).0,
                                single == single_before + bottle_personal_full(self.rows()[y as int], y as int, i as int).1,
                            decreases n - i,
                        {
                            proof {
                                self.lemma_wf_bounds();
                                assert(self.rows()[y as int] == self.landed_rows@[y as int]@);
                            }
                            let left = BOTTLE_OUTER_WIDTH * i + left_offset;
                            let right = left + BOTTLE_INNER_WIDTH - 2 * left_offset;
                            if row_is_full(&self.landed_rows[y], left, right) {
                                single = single + 1;
                                push_row_points(&mut full_points, y, left, right);
                                proof {
                                    assert(full_points@ =~= before + bottle_personal_full(self.rows()[y as int], y as int, i + 1).0);
                                }
                            }
                            i = i + 1;
                        }
                        proof {
                            assert(full_points@ =~= bottle_full(self.rows(), self.width(), n as int, y + 1).0);
                        }
                    } else {
                        let w = self.landed_rows[y].len();
                        if row_is_full(&self.landed_rows[y], 0, w) {
                            everyone = everyone + 1;
                            push_row_points(&mut full_points, y, 0, w);
                        }
                    }
                    y = y + 1;
                }
            },
            Mode::Ring => {
                let mut r: i16 = 4;
                while r <= 18
                    invariant
                        4 <= r <= 19,
                        self.wf(),
                        self.mode == Mode::Ring,
                        everyone <= r,
                        single == 0,
                        (full_points@, everyone as nat) == self.ring_full(r - 1),
                    decreases 19 - r,
                {
                    let mut ring = ring_points_exec(r);
                    proof {
                        self.lemma_wf_bounds();
                        assert forall|k: int| 0 <= k < ring@.len() implies self.in_array(#[trigger] ring@[k]) by {
                            lemma_ring_points_in_range(r as int, k);
                        }
                    }
                    if self.all_landed(&ring) {
                        everyone = everyone + 1;
                        full_points.append(&mut ring);
                    }
                    r = r + 1;
                }
            },
        }
        (full_points, single, everyone)
    }

    /// The points of the full rows (rings in ring mode), without changing the score.
    pub fn find_full_rows(&self) -> (r: Vec<WorldPoint>)
        requires
            self.wf(),
        ensures
            r@ == self.full_rows_spec().0,
    {
        let (points, _, _) = self.full_rows_with_counts();
        points
    }

    /// Whether the score has room for what finding the full rows adds to it (see
    /// `find_full_rows_and_increment_score`).
    pub fn score_has_room_for_full_rows(&self) -> (r: bool)
        requires
            self.wf(),
        ensures
            r == (self.score + self.full_rows_score() <= usize::MAX),
    {
        proof {
            self.lemma_wf_bounds();
        }
        let (_full_points, single, everyone) = self.full_rows_with_counts();
        let n = self.players.len();
        let mut multiplier: usize = 1;
        let mut k: usize = 1;
        while k < n
            invariant
                1 <= k,
                n <= 6,
                n == self.players@.len(),
                k <= n || k == 1,
                multiplier == player_multiplier(k as nat),
                multiplier <= (if k == 1 { 1int } else if k == 2 { 2 } else if k == 3 { 4 } else if k == 4 { 8 } else if k == 5 { 16 } else { 32 }),
            decreases n - k,
        {
            multiplier = multiplier * 2;
            k = k + 1;
        }
        proof {
            assert(clear_score(single as nat) <= 5 * 54 * 55) by (nonlinear_arith)
                requires single <= 54;
            assert(clear_score(everyone as nat) <= 5 * 37 * 38) by (nonlinear_arith)
                requires everyone <= 37;
            assert(clear_score(everyone as nat) * multiplier <= 5 * 37 * 38 * 32) by (nonlinear_arith)
                requires clear_score(everyone as nat) <= 5 * 37 * 38, multiplier <= 32;
            if n == 0 {
                assert(player_multiplier(0) == player_multiplier(1));
            }
            assert(multiplier == player_multiplier(self.players@.len() as nat));
        }
        let points = 5 * single * (single + 1) + 5 * everyone * (everyone + 1) * multiplier;
        proof {
            assert(points == clear_score(single as nat) + clear_score(everyone as nat) * multiplier);
            assert(points == self.full_rows_score());
        }
        self.score <= usize::MAX - points
    }

    /// The points of the full rows (rings in ring mode); the score grows by 10 for the first
    /// full row, 20 for the second and so on, and rows shared by everyone count double for
    /// each player after the first.
    pub fn find_full_rows_and_increment_score(&mut self) -> (r: Vec<WorldPoint>)
        requires
            old(self).wf(),
            old(self).players@.len() > 0,
            old(self).score + old(self).full_rows_score() <= usize::MAX,
        ensures
            game_step(*old(self), *final(self)),
            final(self).wf(),
            r@ == old(self).full_rows_spec().0,
            final(self).score == old(self).score + old(self).full_rows_score(),
            final(self).players == old(self).players,
            final(self).mode == old(self).mode,
            final(self).landed_rows == old(self).landed_rows,
            final(self).flashing_points == old(self).flashing_points,
            final(self).bomb_id_counter == old(self).bomb_id_counter,
            final(self).block_factory == old(self).block_factory,
    {
        proof {
            self.lemma_wf_bounds();
        }
        let (full_points, single, everyone) = self.full_rows_with_counts();
        let n = self.players.len();
        let mut multiplier: usize = 1;
        let mut k: usize = 1;
        while k < n
            invariant
                1 <= k <= n <= 6,
                multiplier == player_multiplier(k as nat),
                multiplier <= (if k == 1 { 1int } else if k == 2 { 2 } else if k == 3 { 4 } else if k == 4 { 8 } else if k == 5 { 16 } else { 32 }),
            decreases n - k,
        {
            multiplier = multiplier * 2;
            k = k + 1;
        }
        proof {
            assert(clear_score(single as nat) <= 5 * 54 * 55) by (nonlinear_arith)
                requires single <= 54;
            assert(clear_score(everyone as nat) <= 5 * 37 * 38) by (nonlinear_arith)
                requires everyone <= 37;
            assert(clear_score(everyone as nat) * multiplier <= 5 * 37 * 38 * 32) by (nonlinear_arith)
                requires clear_score(everyone as nat) <= 5 * 37 * 38, multiplier <= 32;
        }
        let single_points = 5 * single * (single + 1);
        let everyone_points = 5 * everyone * (everyone + 1) * multiplier;
        self.score = self.score + single_points;
        self.score = self.score + everyone_points;
        full_points
    }

    /// Removes the rows at or below `first_y` whose leftmost point is in `full`; the rows
    /// above move down and empty rows appear at the top.
    fn remove_marked_rows(&mut self, full: &[WorldPoint], first_y: usize)
        requires
            old(self).wf(),
            old(self).mode != Mode::Ring,
        ensures
            final(self).wf(),
            final(self).rows() == shift_down(old(self).rows(), row_marked(full@, first_y as int), old(self).height(), blank_row(old(self).width())),
            final(self).players == old(self).players,
            final(self).mode == old(self).mode,
            final(self).flashing_points == old(self).flashing_points,
            final(self).score == old(self).score,
            final(self).bomb_id_counter == old(self).bomb_id_counter,
            final(self).block_factory == old(self).block_factory,
    {
        proof {
            self.lemma_wf_bounds();
            lemma_shift_start(self.rows(), row_marked(full@, first_y as int), blank_row(self.width()));
        }
        let ghost start = self.rows();
        let ghost marked = row_marked(full@, first_y as int);
        let ghost blank = blank_row(self.width());
        let h = self.landed_rows.len();
        let w = if h > 0 {
            self.landed_rows[0].len()
        } else {
            0
        };
        let mut y: usize = 0;
        while y < h
            invariant
                y <= h == old(self).height() == self.landed_rows@.len(),
                self.wf(),
                self.players == old(self).players,
                self.mode == old(self).mode,
                self.flashing_points == old(self).flashing_points,
                self.score == old(self).score,
                self.bomb_id_counter == old(self).bomb_id_counter,
                self.block_factory == old(self).block_factory,
                h > 0 ==> w == self.width(),
                start.len() == h,
                marked == row_marked(full@, first_y as int),
                blank == blank_row(self.width()),
                self.rows() == shift_down(start, marked, y as int, blank),
            decreases h - y,
        {
            proof {
                lemma_shift_step(start, marked, y as int, blank);
            }
            if y >= first_y && contains_point(full, (0, y as i16)) {
                let ghost before = self.landed_rows@;
                let _removed_row = self.landed_rows.remove(y);
                let blank_row_now = make_blank_row(w);
                self.landed_rows.insert(0, blank_row_now);
                proof {
                    assert(self.landed_rows@ == before.remove(y as int).insert(0, blank_row_now));
                    assert(self.rows() =~= shift_down(start, marked, y as int, blank).remove(y as int).insert(0, blank));
                    assert forall|k: int| 0 <= k < self.landed_rows@.len() implies #[trigger] self.landed_rows@[k]@.len() == self.width() by {
                        if k > 0 {
                            if k <= y {
                                assert(self.landed_rows@[k] == before[k - 1]);
                            } else {
                                assert(self.landed_rows@[k] == before[k]);
                            }
                        }
                    }
                }
            }
            y = y + 1;
        }
    }

    /// Removes each player's personal-space rows whose middle point is in `full`; only that
    /// player's squares above them move down.
    fn remove_personal_rows(&mut self, full: &[WorldPoint])
        requires
            old(self).wf(),
            old(self).mode == Mode::Bottle,
        ensures
            final(self).wf(),
            final(self).rows() == bottle_personal_removed(old(self).rows(), full@),
            final(self).players == old(self).players,
            final(self).mode == old(self).mode,
            final(self).flashing_points == old(self).flashing_points,
            final(self).score == old(self).score,
            final(self).bomb_id_counter == old(self).bomb_id_counter,
            final(self).block_factory == old(self).block_factory,
    {
        proof {
            self.lemma_wf_bounds();
        }
        let ghost start = self.rows();
        let n = self.players.len();
        let mut x: usize = 0;
        let w = if n == 0 {
            0
        } else {
            BOTTLE_OUTER_WIDTH * n - 1
        };
        while x < w
            invariant
                x <= w == self.width(),
                n == self.players@.len(),
                self.wf(),
                self.players == old(self).players,
                self.mode == Mode::Bottle,
                self.flashing_points == old(self).flashing_points,
                self.score == old(self).score,
                self.bomb_id_counter == old(self).bomb_id_counter,
                self.block_factory == old(self).block_factory,
                start == old(self).rows(),
                start.len() == 21,
                forall|yy: int| 0 <= yy < 21 ==> #[trigger] start[yy].len() == w,
                self.height() == 21,
                forall|yy: int, xx: int| 0 <= yy < 21 && 0 <= xx < w ==> #[trigger] self.rows()[yy][xx] == if xx < x {
                    bottle_personal_removed(start, full@)[yy][xx]
                } else {
                    start[yy][xx]
                },
            decreases w - x,
        {
            proof {
                self.lemma_wf_bounds();
            }
            if x % BOTTLE_OUTER_WIDTH < BOTTLE_INNER_WIDTH {
                let i = x / BOTTLE_OUTER_WIDTH;
                let mut col: Vec<Option<SquareContent>> = Vec::new();
                let mut y: usize = 0;
                while y < BOTTLE_PERSONAL_SPACE_HEIGHT
                    invariant
                        y <= 9,
                        x < w == self.width(),
                        self.wf(),
                        self.height() == 21,
                        col@ == column(self.rows(), x as int, y as int),
                    decreases 9 - y,
                {
                    proof {
                        self.lemma_wf_bounds();
                        assert(self.rows()[y as int] == self.landed_rows@[y as int]@);
                    }
                    col.push(self.landed_rows[y][x]);
                    proof {
                        assert(col@ =~= column(self.rows(), x as int, y + 1));
                    }
                    y = y + 1;
                }
                let ghost col_start = col@;
                proof {
                    assert(col_start =~= column(start, x as int, 9));
                    lemma_shift_start(col_start, personal_marked(full@, i as int), None);
                }
                let mut y: usize = 0;
                while y < BOTTLE_PERSONAL_SPACE_HEIGHT
                    invariant
                        y <= 9,
                        i == x / 10,
                        i < 6,
                        col_start.len() == 9,
                        col@ == shift_down(col_start, personal_marked(full@, i as int), y as int, None),
                    decreases 9 - y,
                {
                    proof {
                        lemma_shift_step(col_start, personal_marked(full@, i as int), y as int, None);
                    }
                    if contains_point(full, ((BOTTLE_OUTER_WIDTH * i + 4) as i16, y as i16)) {
                        col.remove(y);
                        col.insert(0, None);
                    }
                    y = y + 1;
                }
                let mut y: usize = 0;
                while y < BOTTLE_PERSONAL_SPACE_HEIGHT
                    invariant
                        y <= 9,
                        x < w == self.width(),
                        n == self.players@.len(),
                        self.wf(),
                        self.players == old(self).players,
                        self.mode == Mode::Bottle,
                        self.flashing_points == old(self).flashing_points,
                        self.score == old(self).score,
                        self.bomb_id_counter == old(self).bomb_id_counter,
                        self.block_factory == old(self).block_factory,
                        self.height() == 21,
                        i == x / 10,
                        x % 10 < 9,
                        col@ == shift_down(col_start, personal_marked(full@, i as int), 9, None),
                        col_start == column(start, x as int, 9),
                        start.len() == 21,
                        forall|yy: int| 0 <= yy < 21 ==> #[trigger] start[yy].len() == w,
                        forall|yy: int, xx: int| 0 <= yy < 21 && 0 <= xx < w ==> #[trigger] self.rows()[yy][xx] == if xx < x || (xx == x && yy < y) {
                            bottle_personal_removed(start, full@)[yy][xx]
                        } else {
                            start[yy][xx]
                        },
                    decreases 9 - y,
                {
                    proof {
                        self.lemma_wf_bounds();
                        lemma_kept_len(col_start, personal_marked(full@, i as int), 9);
                        assert(bottle_personal_removed(start, full@)[y as int][x as int] == col@[y as int]);
                    }
                    let ghost before = self.rows();
                    let value = col[y];
                    self.landed_rows[y][x] = value;
                    proof {
                        assert forall|yy: int, xx: int| 0 <= yy < 21 && 0 <= xx < w implies #[trigger] self.rows()[yy][xx] == if xx < x || (xx == x && yy < y + 1) {
                            bottle_personal_removed(start, full@)[yy][xx]
                        } else {
                            start[yy][xx]
                        } by {
                            assert(self.rows()[yy] == self.landed_rows@[yy]@);
                            if yy != y || xx != x {
                                assert(self.rows()[yy][xx] == before[yy][xx]);
                            }
                        }
                        assert forall|k: int| 0 <= k < self.landed_rows@.len() implies #[trigger] self.landed_rows@[k]@.len() == self.width() by {
                            assert(self.rows()[k] == self.landed_rows@[k]@);
                            assert(before[k].len() == self.width());
                        }
                    }
                    y = y + 1;
                }
                proof {
                    assert forall|yy: int, xx: int| 0 <= yy < 21 && 0 <= xx < w implies #[trigger] self.rows()[yy][xx] == if xx < x + 1 {
                        bottle_personal_removed(start, full@)[yy][xx]
                    } else {
                        start[yy][xx]
                    } by {
                        if xx == x && yy >= 9 {
                            assert(bottle_personal_removed(start, full@)[yy][xx] == start[yy][xx]);
                        }
                    }
                }
            } else {
                proof {
                    assert forall|yy: int, xx: int| 0 <= yy < 21 && 0 <= xx < w implies #[trigger] self.rows()[yy][xx] == if xx < x + 1 {
                        bottle_personal_removed(start, full@)[yy][xx]
                    } else {
                        start[yy][xx]
                    } by {
                        if xx == x {
                            assert(bottle_personal_removed(start, full@)[yy][xx] == start[yy][xx]);
                        }
                    }
                }
            }
            x = x + 1;
        }
        proof {
            self.lemma_wf_bounds();
            assert forall|yy: int| 0 <= yy < 21 implies #[trigger] self.rows()[yy] =~= bottle_personal_removed(start, full@)[yy] by {
            }
            assert(self.rows() =~= bottle_personal_removed(start, full@));
        }
    }

    /// Where in the array a world point's square is, and back.
    pub proof fn lemma_cell_point(&self, x: int, y: int)
        requires
            self.wf(),
            0 <= y < self.height(),
            0 <= x < self.width(),
        ensures
            ({
                let (ox, oy) = center_offset(self.mode);
                let p = ((x - ox) as i16, (y - oy) as i16);
                &&& self.in_array(p)
                &&& self.landed(p) == self.rows()[y][x]
                &&& p.0 + ox == x
                &&& p.1 + oy == y
            }),
    {
        self.lemma_wf_bounds();
    }

    /// Removes the rings of a ring game given by `full`: the points of `full` are emptied,
    /// then each ring from the outside in with all its points in `full` is removed and the
    /// rings outside it move inwards.
    fn remove_full_rings(&mut self, full: &[WorldPoint])
        requires
            old(self).wf(),
            old(self).mode == Mode::Ring,
            forall|k: int| 0 <= k < full@.len() ==> -18 <= #[trigger] full@[k].0 <= 18 && -18 <= full@[k].1 <= 18,
        ensures
            final(self).wf(),
            final(self).rows() == ring_collapses(rows_without(old(self).rows(), full@, (18, 18)), full@, 1),
            final(self).players == old(self).players,
            final(self).mode == old(self).mode,
            final(self).flashing_points == old(self).flashing_points,
            final(self).score == old(self).score,
            final(self).bomb_id_counter == old(self).bomb_id_counter,
            final(self).block_factory == old(self).block_factory,
    {
        proof {
            self.lemma_wf_bounds();
        }
        let ghost start = self.rows();
        proof {
            assert forall|yy: int| 0 <= yy < 37 implies #[trigger] start[yy] =~= rows_without(start, full@.take(0), (18, 18))[yy] by {}
            assert(start =~= rows_without(start, full@.take(0), (18, 18)));
        }
        let mut k: usize = 0;
        while k < full.len()
            invariant
                k <= full@.len(),
                forall|j: int| 0 <= j < full@.len() ==> -18 <= #[trigger] full@[j].0 <= 18 && -18 <= full@[j].1 <= 18,
                self.wf(),
                self.players == old(self).players,
                self.mode == Mode::Ring,
                self.flashing_points == old(self).flashing_points,
                self.score == old(self).score,
                self.bomb_id_counter == old(self).bomb_id_counter,
                self.block_factory == old(self).block_factory,
                start.len() == 37,
                forall|yy: int| 0 <= yy < 37 ==> #[trigger] start[yy].len() == 37,
                self.rows() == rows_without(start, full@.take(k as int), (18, 18)),
            decreases full@.len() - k,
        {
            proof {
                self.lemma_wf_bounds();
            }
            let (x, y) = full[k];
            let ghost before = self.rows();
            let yy = (y + 18) as usize;
            let xx = (x + 18) as usize;
            self.landed_rows[yy][xx] = None;
            proof {
                assert forall|a: int| 0 <= a < 37 implies #[trigger] self.rows()[a] =~= rows_without(start, full@.take(k + 1), (18, 18))[a] by {
                    assert(self.rows()[a] == self.landed_rows@[a]@);
                    assert forall|b: int| 0 <= b < 37 implies #[trigger] self.rows()[a][b] == rows_without(start, full@.take(k + 1), (18, 18))[a][b] by {
                        let q = ((b - 18) as i16, (a - 18) as i16);
                        assert(full@.take(k + 1) =~= full@.take(k as int).push((x, y)));
                        if a == yy && b == xx {
                            assert(q == (x, y));
                            assert(full@.take(k + 1).contains(q)) by {
                                assert(full@.take(k + 1)[k as int] == q);
                            }
                        } else {
                            assert(q != (x, y));
                            assert(full@.take(k + 1).contains(q) == full@.take(k as int).contains(q)) by {
                                if full@.take(k + 1).contains(q) {
                                    let j = choose|j: int| 0 <= j < k + 1 && #[trigger] full@.take(k + 1)[j] == q;
                                    assert(full@.take(k as int)[j] == q);
                                }
                                if full@.take(k as int).contains(q) {
                                    let j = choose|j: int| 0 <= j < k && #[trigger] full@.take(k as int)[j] == q;
                                    assert(full@.take(k + 1)[j] == q);
                                }
                            }
                            assert(self.rows()[a][b] == before[a][b]);
                        }
                    }
                }
                assert(self.rows() =~= rows_without(start, full@.take(k + 1), (18, 18)));
                assert forall|j: int| 0 <= j < self.landed_rows@.len() implies #[trigger] self.landed_rows@[j]@.len() == self.width() by {
                    assert(self.rows()[j] == self.landed_rows@[j]@);
                }
            }
            k = k + 1;
        }
        proof {
            assert(full@.take(full@.len() as int) =~= full@);
        }
        let mut counts: Vec<usize> = Vec::new();
        for r in 0..19usize
            invariant
                counts@.len() == r,
                forall|j: int| 0 <= j < r ==> #[trigger] counts@[j] == 0,
        {
            counts.push(0);
        }
        let mut k: usize = 0;
        while k < full.len()
            invariant
                k <= full@.len(),
                forall|j: int| 0 <= j < full@.len() ==> -18 <= #[trigger] full@[j].0 <= 18 && -18 <= full@[j].1 <= 18,
                counts@.len() == 19,
                forall|r: int| 0 <= r < 19 ==> #[trigger] counts@[r] == radius_count(full@.take(k as int), r),
                forall|r: int| 0 <= r < 19 ==> #[trigger] counts@[r] <= k,
            decreases full@.len() - k,
        {
            let (x, y) = full[k];
            let ax = if x < 0 { -x } else { x };
            let ay = if y < 0 { -y } else { y };
            let m = if ax < ay { ay as usize } else { ax as usize };
            proof {
                assert(full@.take(k + 1).drop_last() =~= full@.take(k as int));
                assert(full@.take(k + 1).last() == (x, y));
            }
            let c = counts[m];
            counts.set(m, c + 1);
            k = k + 1;
        }
        proof {
            assert(full@.take(full@.len() as int) =~= full@);
        }
        let ghost base = self.rows();
        let mut r: i16 = 18;
        while r >= 1
            invariant
                0 <= r <= 18,
                self.wf(),
                self.players == old(self).players,
                self.mode == Mode::Ring,
                self.flashing_points == old(self).flashing_points,
                self.score == old(self).score,
                self.bomb_id_counter == old(self).bomb_id_counter,
                self.block_factory == old(self).block_factory,
                counts@.len() == 19,
                forall|q: int| 0 <= q < 19 ==> #[trigger] counts@[q] == radius_count(full@, q),
                self.rows() == ring_collapses(base, full@, r + 1),
            decreases r,
        {
            proof {
                self.lemma_wf_bounds();
                assert forall|j: int| 0 <= j < 37 implies #[trigger] self.landed_rows@[j]@.len() == 37 by {
                    assert(self.rows()[j] == self.landed_rows@[j]@);
                }
            }
            if counts[r as usize] == 8 * r as usize {
                self.landed_rows = collapse_ring(&self.landed_rows, r);
            }
            r = r - 1;
        }
    }

    /// Empties the valid landed squares under the players' falling blocks.
    fn clear_under_falling_blocks(&mut self)
        requires
            old(self).wf(),
        ensures
            final(self).wf(),
            final(self).rows() == old(self).without_falling(old(self).rows()),
            final(self).players == old(self).players,
            final(self).mode == old(self).mode,
            final(self).flashing_points == old(self).flashing_points,
            final(self).score == old(self).score,
            final(self).bomb_id_counter == old(self).bomb_id_counter,
            final(self).block_factory == old(self).block_factory,
    {
        let ghost g0 = *self;
        let mut overlaps: Vec<WorldPoint> = Vec::new();
        let mut i: usize = 0;
        while i < self.players.len()
            invariant
                i <= self.players@.len(),
                self.wf(),
                overlaps@ == falling_points(self.players@.take(i as int)),
            decreases self.players@.len() - i,
        {
            proof {
                assert(self.players@.take(i + 1).drop_last() =~= self.players@.take(i as int));
                assert(self.players@.take(i + 1).last() == self.players@[i as int]);
                assert(self.players@[i as int].wf());
            }
            let player = &self.players[i];
            let coords = player.block_or_timer.get_coords();
            let ghost before = overlaps@;
            let ghost world = block_world_points(*player);
            let mut j: usize = 0;
            while j < coords.len()
                invariant
                    j <= coords@.len(),
                    coords@ == player.block_or_timer.spec_coords(),
                    world == block_world_points(*player),
                    overlaps@ == before + world.take(j as int),
                decreases coords@.len() - j,
            {
                overlaps.push(player.player_to_world(coords[j]));
                proof {
                    assert(overlaps@ =~= before + world.take(j + 1));
                }
                j = j + 1;
            }
            proof {
                assert(world.take(world.len() as int) =~= world);
            }
            i = i + 1;
        }
        proof {
            assert(self.players@.take(self.players@.len() as int) =~= self.players@);
            self.lemma_wf_bounds();
            assert forall|yy: int| 0 <= yy < self.height() implies #[trigger] self.rows()[yy] =~= g0.emptied_at(g0.rows(), overlaps@.take(0))[yy] by {}
            assert(self.rows() =~= g0.emptied_at(g0.rows(), overlaps@.take(0)));
        }
        let mut k: usize = 0;
        while k < overlaps.len()
            invariant
                k <= overlaps@.len(),
                self.wf(),
                g0.wf(),
                self.players == g0.players,
                self.mode == g0.mode,
                self.flashing_points == g0.flashing_points,
                self.score == g0.score,
                self.bomb_id_counter == g0.bomb_id_counter,
                self.block_factory == g0.block_factory,
                self.height() == g0.height(),
                self.rows() == g0.emptied_at(g0.rows(), overlaps@.take(k as int)),
            decreases overlaps@.len() - k,
        {
            let p = overlaps[k];
            let ghost before = self.rows();
            let ghost gb = *self;
            proof {
                self.lemma_wf_bounds();
                g0.lemma_wf_bounds();
                assert(overlaps@.take(k + 1) =~= overlaps@.take(k as int).push(p));
            }
            if self.is_valid_landed_block_coords(p) {
                self.set_landed_square(p, None);
            }
            proof {
                self.lemma_wf_bounds();
                let (ox, oy) = center_offset(self.mode);
                assert forall|yy: int| 0 <= yy < self.height() implies #[trigger] self.rows()[yy] =~= g0.emptied_at(g0.rows(), overlaps@.take(k + 1))[yy] by {
                    assert forall|xx: int| 0 <= xx < self.width() implies #[trigger] self.rows()[yy][xx] == g0.emptied_at(g0.rows(), overlaps@.take(k + 1))[yy][xx] by {
                        self.lemma_cell_point(xx, yy);
                        let q = ((xx - ox) as i16, (yy - oy) as i16);
                        assert(g0.valid_landed(q) == self.valid_landed(q));
                        assert(overlaps@.take(k + 1).contains(q) == (overlaps@.take(k as int).contains(q) || q == p)) by {
                            if overlaps@.take(k + 1).contains(q) && q != p {
                                let j = choose|j: int| 0 <= j < k + 1 && #[trigger] overlaps@.take(k + 1)[j] == q;
                                assert(overlaps@.take(k as int)[j] == q);
                            }
                            if overlaps@.take(k as int).contains(q) {
                                let j = choose|j: int| 0 <= j < k && #[trigger] overlaps@.take(k as int)[j] == q;
                                assert(overlaps@.take(k + 1)[j] == q);
                            }
                            if q == p {
                                assert(overlaps@.take(k + 1)[k as int] == q);
                            }
                        }
                        if q != p {
                            gb.lemma_cell_point(xx, yy);
                            assert(gb.in_array(q));
                            assert(self.landed(q) == gb.landed(q));
                        }
                    }
                }
                assert(self.rows() =~= g0.emptied_at(g0.rows(), overlaps@.take(k + 1)));
            }
            k = k + 1;
        }
        proof {
            assert(overlaps@.take(overlaps@.len() as int) =~= overlaps@);
        }
    }

    /// Removes the full rows marked in `full` (see `removed_rows_spec`); afterwards the
    /// squares under falling blocks are emptied, because moving landed squares can make them
    /// overlap falling squares.
    pub fn remove_full_rows(&mut self, full: &[WorldPoint])
        requires
            old(self).wf(),
            old(self).mode == Mode::Ring ==> forall|k: int| 0 <= k < full@.len() ==> -18 <= #[trigger] full@[k].0 <= 18 && -18 <= full@[k].1 <= 18,
        ensures
            game_step(*old(self), *final(self)),
            final(self).wf(),
            final(self).rows() == old(self).without_falling(old(self).removed_rows_spec(full@)),
            final(self).height() == old(self).height(),
            final(self).players == old(self).players,
            final(self).mode == old(self).mode,
            final(self).flashing_points == old(self).flashing_points,
            final(self).score == old(self).score,
            final(self).bomb_id_counter == old(self).bomb_id_counter,
            final(self).block_factory == old(self).block_factory,
    {
        match self.mode {
            Mode::Traditional => self.remove_marked_rows(full, 0),
            Mode::Bottle => {
                self.remove_personal_rows(full);
                self.remove_marked_rows(full, BOTTLE_PERSONAL_SPACE_HEIGHT);
            },
            Mode::Ring => self.remove_full_rings(full),
        }
        let ghost mid = *self;
        self.clear_under_falling_blocks();
        proof {
            old(self).lemma_wf_bounds();
            mid.lemma_wf_bounds();
            if old(self).mode == Mode::Traditional {
                lemma_kept_len(old(self).rows(), row_marked(full@, 0), old(self).height());
            }
            assert(mid.height() == old(self).height());
            assert(mid.rows() == old(self).removed_rows_spec(full@));
            assert forall|y: int| 0 <= y < mid.height() implies #[trigger] mid.without_falling(mid.rows())[y] =~= old(self).without_falling(old(self).removed_rows_spec(full@))[y] by {
                assert forall|q: WorldPoint| #[trigger] mid.valid_landed(q) == old(self).valid_landed(q) by {}
            }
            assert(mid.without_falling(mid.rows()) =~= old(self).without_falling(old(self).removed_rows_spec(full@)));
        }
    }

    /// Whether a falling square may be at a player point: above the playing area is allowed,
    /// and in ring mode the area continues from the top below the bottom.
    pub open spec fn valid_moving(&self, point: PlayerPoint) -> bool {
        let top_y: int = if self.mode == Mode::Ring { -18 } else { 0 };
        let y = if point.1 < top_y { top_y } else { point.1 as int };
        self.valid_landed((point.0 as i16, wrap_around_spec(self.mode, y) as i16))
    }

    fn is_valid_moving_block_coords(&self, point: PlayerPoint) -> (r: bool)
        requires
            self.wf(),
            point.1 <= i32::MAX - 18,
        ensures
            r == self.valid_moving(point),
    {
        let (x, mut y) = point;
        let top_y: i32 = match self.mode {
            Mode::Traditional | Mode::Bottle => 0,
            Mode::Ring => -(RING_OUTER_RADIUS as i32),
        };
        if y < top_y {
            y = top_y;
        }
        wrap_around(self.mode, &mut y);
        self.is_valid_landed_block_coords((#[verifier::truncate] (x as i16), #[verifier::truncate] (y as i16)))
    }

    /// Whether the falling block of player `i` could be at these player coordinates:
    /// inside the area and not on top of anything else.
    pub open spec fn fits(&self, i: int, coords: Seq<PlayerPoint>) -> bool {
        forall|k: int| 0 <= k < coords.len() ==> self.valid_moving(#[trigger] coords[k])
            && self.any_square_spec(player_to_world_spec(self.players@[i].down_direction, coords[k]), Some(i as usize)) is None
    }

    /// Turns the falling block of player `i` if it fits after turning; returns whether it
    /// turned.
    fn rotate_if_possible(&mut self, player_idx: usize, prefer_counter_clockwise: bool) -> (r: bool)
        requires
            old(self).wf(),
            player_idx < old(self).players@.len(),
        ensures
            final(self).wf(),
            final(self).mode == old(self).mode,
            final(self).landed_rows == old(self).landed_rows,
            final(self).flashing_points == old(self).flashing_points,
            final(self).score == old(self).score,
            final(self).bomb_id_counter == old(self).bomb_id_counter,
            final(self).block_factory == old(self).block_factory,
            final(self).players@.len() == old(self).players@.len(),
            forall|j: int| 0 <= j < old(self).players@.len() && j != player_idx ==> #[trigger] final(self).players@[j] == old(self).players@[j],
            r == old(self).rotate_condition(player_idx as int, prefer_counter_clockwise),
            same_except_block(final(self).players@[player_idx as int], old(self).players@[player_idx as int]),
            !r ==> final(self).players@[player_idx as int] == old(self).players@[player_idx as int],
            r ==> (old(self).players@[player_idx as int].block_or_timer matches BlockOrTimer::Block(b)
                && final(self).players@[player_idx as int].block_or_timer matches BlockOrTimer::Block(nb)
                && is_rotated(b, nb, prefer_counter_clockwise)),
    {
        proof {
            assert(self.players@[player_idx as int].wf());
        }
        let coords = match &self.players[player_idx].block_or_timer {
            BlockOrTimer::Block(block) => {
                proof {
                    crate::game_logic::blocks::lemma_rotated_bounded(block.relative_coords@, block.rotate_mode, prefer_counter_clockwise);
                    crate::game_logic::blocks::lemma_add_center_bounds(block.center, crate::game_logic::blocks::rotated_relative(block.relative_coords@, block.rotate_mode, prefer_counter_clockwise));
                }
                block.get_rotated_coords(prefer_counter_clockwise)
            },
            _ => return false,
        };
        let mut can_rotate = true;
        let mut k: usize = 0;
        while k < coords.len()
            invariant
                k <= coords@.len(),
                self.wf(),
                self == old(self),
                player_idx < self.players@.len(),
                self.players@[player_idx as int].block_or_timer matches BlockOrTimer::Block(b)
                    && coords@ == add_center(b.center, crate::game_logic::blocks::rotated_relative(b.relative_coords@, b.rotate_mode, prefer_counter_clockwise)),
                can_rotate == forall|j: int| 0 <= j < k ==> self.valid_moving(#[trigger] coords@[j])
                    && self.any_square_spec(player_to_world_spec(self.players@[player_idx as int].down_direction, coords@[j]), Some(player_idx)) is None,
                forall|j: int| 0 <= j < coords@.len() ==> i32::MIN + 100 <= #[trigger] coords@[j].1 <= i32::MAX - 100,
            decreases coords@.len() - k,
        {
            let p = coords[k];
            if can_rotate {
                let stays_in_bounds = self.is_valid_moving_block_coords(p);
                let goes_on_top_of_something = self.get_any_square(self.players[player_idx].player_to_world(p), Some(player_idx)).is_some();
                can_rotate = stays_in_bounds && !goes_on_top_of_something;
            }
            k = k + 1;
        }
        if can_rotate {
            match &mut self.players[player_idx].block_or_timer {
                BlockOrTimer::Block(block) => block.rotate(prefer_counter_clockwise),
                _ => {},
            }
        }
        can_rotate
    }

    /// Whether a block of player `i` could appear at these player coordinates: nothing
    /// else is there.
    pub open spec fn can_add_spec(&self, i: int, coords: Seq<PlayerPoint>) -> bool {
        forall|k: int| 0 <= k < coords.len() ==> #[trigger] self.any_square_spec(
            player_to_world_spec(self.players@[i].down_direction, coords[k]), Some(i as usize)) is None
    }

    fn can_add_block(&self, player_idx: usize, block: &FallingBlock) -> (r: bool)
        requires
            self.wf(),
            player_idx < self.players@.len(),
            block.wf(),
        ensures
            r == self.can_add_spec(player_idx as int, add_center(block.center, block.relative_coords@)),
    {
        let coords = block.get_coords();
        let mut k: usize = 0;
        while k < coords.len()
            invariant
                k <= coords@.len(),
                self.wf(),
                player_idx < self.players@.len(),
                coords@ == add_center(block.center, block.relative_coords@),
                forall|j: int| 0 <= j < k ==> #[trigger] self.any_square_spec(
                    player_to_world_spec(self.players@[player_idx as int].down_direction, coords@[j]), Some(player_idx)) is None,
            decreases coords@.len() - k,
        {
            if self.get_any_square(self.players[player_idx].player_to_world(coords[k]), Some(player_idx)).is_some() {
                return false;
            }
            k = k + 1;
        }
        true
    }

    /// What `new_block_possibly_from_hold` does to player `i`: the block from the hold (if
    /// asked for and there is one) or the next block spawns at the spawn point, or the
    /// player gets a pending timer when that place is taken; a new next block is made when
    /// the next block was used.
    pub open spec fn got_new_block(&self, after: Player, i: int, from_hold: bool) -> bool {
        let p = self.players@[i];
        let use_hold = from_hold && p.block_in_hold is Some;
        let source = if use_hold { p.block_in_hold.unwrap() } else { p.next_block };
        let spawned_coords = add_center(spawn_center(source, p.spawn_point), source.relative_coords@);
        &&& after.client_id == p.client_id
        &&& after.name == p.name
        &&& after.color == p.color
        &&& after.spawn_point == p.spawn_point
        &&& after.down_direction == p.down_direction
        &&& !after.fast_down
        &&& use_hold ==> after.block_in_hold is None && after.next_block == p.next_block
        &&& !use_hold ==> after.block_in_hold == p.block_in_hold
        &&& self.can_add_spec(i, spawned_coords) ==> (after.block_or_timer matches BlockOrTimer::Block(b) && is_spawned(source, b, p.spawn_point))
        &&& !self.can_add_spec(i, spawned_coords) ==> after.block_or_timer is TimerPending
    }

    fn new_block_possibly_from_hold(&mut self, player_idx: usize, from_hold_if_possible: bool)
        requires
            old(self).wf(),
            player_idx < old(self).players@.len(),
        ensures
            final(self).wf(),
            final(self).mode == old(self).mode,
            final(self).landed_rows == old(self).landed_rows,
            final(self).flashing_points == old(self).flashing_points,
            final(self).score == old(self).score,
            final(self).bomb_id_counter == old(self).bomb_id_counter,
            final(self).block_factory == old(self).block_factory,
            final(self).players@.len() == old(self).players@.len(),
            forall|j: int| 0 <= j < old(self).players@.len() && j != player_idx ==> #[trigger] final(self).players@[j] == old(self).players@[j],
            old(self).got_new_block(final(self).players@[player_idx as int], player_idx as int, from_hold_if_possible),
    {
        proof {
            assert(self.players@[player_idx as int].wf());
        }
        let use_hold = from_hold_if_possible && self.players[player_idx].block_in_hold.is_some();
        let mut block = if use_hold {
            match self.players[player_idx].block_in_hold.take() {
                Some(b) => b,
                None => self.block_factory.make(self.score),
            }
        } else {
            let mut fresh = self.block_factory.make(self.score);
            core::mem::swap(&mut self.players[player_idx].next_block, &mut fresh);
            fresh
        };
        let ghost source = block;
        let spawn_point = self.players[player_idx].spawn_point;
        block.spawn_at(spawn_point);
        let can_add = self.can_add_block(player_idx, &block);
        proof {
            assert forall|q: WorldPoint| #[trigger] self.any_square_spec(q, Some(player_idx)) == old(self).any_square_spec(q, Some(player_idx)) by {
                lemma_falling_square_frame(self.players@, old(self).players@, q, player_idx as int);
            }
            assert(self.players@[player_idx as int].down_direction == old(self).players@[player_idx as int].down_direction);
            let coords = add_center(block.center, block.relative_coords@);
            let down = self.players@[player_idx as int].down_direction;
            if self.can_add_spec(player_idx as int, coords) {
                assert forall|k: int| 0 <= k < coords.len() implies #[trigger] old(self).any_square_spec(
                    player_to_world_spec(down, coords[k]), Some(player_idx)) is None by {
                    assert(self.any_square_spec(player_to_world_spec(down, coords[k]), Some(player_idx)) is None);
                }
            }
            if old(self).can_add_spec(player_idx as int, coords) {
                assert forall|k: int| 0 <= k < coords.len() implies #[trigger] self.any_square_spec(
                    player_to_world_spec(down, coords[k]), Some(player_idx)) is None by {
                    assert(old(self).any_square_spec(player_to_world_spec(down, coords[k]), Some(player_idx)) is None);
                }
            }
            assert(self.can_add_spec(player_idx as int, coords) == old(self).can_add_spec(player_idx as int, coords));
        }
        if can_add {
            self.players[player_idx].block_or_timer = BlockOrTimer::Block(block);
        } else {
            self.players[player_idx].block_or_timer = BlockOrTimer::TimerPending;
        }
        self.players[player_idx].fast_down = false;
        proof {
            assert(self.players@[player_idx as int].wf());
        }
    }

    /// Gives player `i` a new falling block (see `got_new_block`).
    pub fn new_block(&mut self, player_idx: usize)
        requires
            old(self).wf(),
            player_idx < old(self).players@.len(),
        ensures
            game_step(*old(self), *final(self)),
            final(self).wf(),
            final(self).mode == old(self).mode,
            final(self).landed_rows == old(self).landed_rows,
            final(self).flashing_points == old(self).flashing_points,
            final(self).score == old(self).score,
            final(self).bomb_id_counter == old(self).bomb_id_counter,
            final(self).block_factory == old(self).block_factory,
            final(self).players@.len() == old(self).players@.len(),
            forall|j: int| 0 <= j < old(self).players@.len() && j != player_idx ==> #[trigger] final(self).players@[j] == old(self).players@[j],
            old(self).got_new_block(final(self).players@[player_idx as int], player_idx as int, false),
    {
        self.new_block_possibly_from_hold(player_idx, false);
    }

    /// Puts the falling block of player `i` into the hold, unless it has been there already,
    /// and takes the block that was in the hold (or the next block); returns whether that
    /// happened.
    fn hold_block(&mut self, player_idx: usize) -> (r: bool)
        requires
            old(self).wf(),
            player_idx < old(self).players@.len(),
        ensures
            final(self).wf(),
            final(self).mode == old(self).mode,
            final(self).landed_rows == old(self).landed_rows,
            final(self).flashing_points == old(self).flashing_points,
            final(self).score == old(self).score,
            final(self).bomb_id_counter == old(self).bomb_id_counter,
            final(self).block_factory == old(self).block_factory,
            final(self).players@.len() == old(self).players@.len(),
            forall|j: int| 0 <= j < old(self).players@.len() && j != player_idx ==> #[trigger] final(self).players@[j] == old(self).players@[j],
            r == old(self).hold_condition(player_idx as int),
            !r ==> final(self).players@[player_idx as int] == old(self).players@[player_idx as int],
            r ==> (old(self).players@[player_idx as int].block_or_timer matches BlockOrTimer::Block(b)
                && final(self).players@[player_idx as int].block_in_hold matches Some(h)
                && h.has_been_in_hold
                && h.relative_coords == b.relative_coords
                && h.center == b.center
                && h.square_content == b.square_content
                && h.rotate_mode == b.rotate_mode),
    {
        proof {
            assert(self.players@[player_idx as int].wf());
        }
        let can_hold = match &self.players[player_idx].block_or_timer {
            BlockOrTimer::Block(b) => !b.has_been_in_hold,
            _ => false,
        };
        if !can_hold {
            return false;
        }
        let ghost before = self.players@[player_idx as int];
        let mut taken = BlockOrTimer::TimerPending;
        core::mem::swap(&mut self.players[player_idx].block_or_timer, &mut taken);
        proof {
            assert(self.players@[player_idx as int].block_or_timer is TimerPending);
            assert(same_except_block(self.players@[player_idx as int], before));
            assert(self.players@[player_idx as int].wf());
        }
        let mut to_hold = match taken {
            BlockOrTimer::Block(b) => b,
            _ => self.block_factory.make(0),
        };
        proof {
            assert(before.wf());
            assert(to_hold.wf() && to_hold.relative_coords@.len() > 0);
        }
        self.new_block_possibly_from_hold(player_idx, true);
        proof {
            assert(self.players@[player_idx as int].wf());
        }
        to_hold.has_been_in_hold = true;
        self.players[player_idx].block_in_hold = Some(to_hold);
        proof {
            assert(self.players@[player_idx as int].wf());
        }
        true
    }

    /// Removes the falling squares at `points`, except those of player `keep`; players left
    /// without squares get new blocks (see `squares_removed`).
    fn remove_falling_squares_at(&mut self, points: &[WorldPoint], keep: Option<usize>)
        requires
            old(self).wf(),
        ensures
            final(self).wf(),
            final(self).mode == old(self).mode,
            final(self).landed_rows == old(self).landed_rows,
            final(self).flashing_points == old(self).flashing_points,
            final(self).score == old(self).score,
            final(self).bomb_id_counter == old(self).bomb_id_counter,
            final(self).block_factory == old(self).block_factory,
            final(self).players@.len() == old(self).players@.len(),
            forall|j: int| 0 <= j < old(self).players@.len() ==> if keep == Some(j as usize) {
                #[trigger] final(self).players@[j] == old(self).players@[j]
            } else {
                squares_removed(old(self).players@[j], final(self).players@[j], points@)
            },
    {
        let mut need_new_block: Vec<usize> = Vec::new();
        let n = self.players.len();
        let mut i: usize = 0;
        while i < n
            invariant
                i <= n == self.players@.len() == old(self).players@.len(),
                self.wf(),
                self.mode == old(self).mode,
                self.landed_rows == old(self).landed_rows,
                self.flashing_points == old(self).flashing_points,
                self.score == old(self).score,
                self.bomb_id_counter == old(self).bomb_id_counter,
                self.block_factory == old(self).block_factory,
                forall|k: int| 0 <= k < need_new_block@.len() ==> #[trigger] need_new_block@[k] < i,
                forall|k1: int, k2: int| 0 <= k1 < k2 < need_new_block@.len() ==> need_new_block@[k1] < need_new_block@[k2],
                forall|j: int| i <= j < n ==> #[trigger] self.players@[j] == old(self).players@[j],
                forall|j: int| 0 <= j < i ==> #[trigger] removal_stage(old(self).players@[j], self.players@[j], need_new_block@, keep, j, points@),
            decreases n - i,
        {
            proof {
                assert(self.players@[i as int].wf());
            }
            let ghost nn_before = need_new_block@;
            let ghost players_before = self.players@;
            let skip = match keep {
                Some(k) => k == i,
                None => false,
            };
            if !skip {
                let player = &self.players[i];
                if let BlockOrTimer::Block(block) = &player.block_or_timer {
                    let coords = block.get_coords();
                    let center = block.center;
                    let ghost b = *block;
                    let ghost down = player.down_direction;
                    let mut kept: Vec<PlayerPoint> = Vec::new();
                    let mut k: usize = 0;
                    proof {
                        crate::game_logic::blocks::lemma_add_center_bounds(b.center, b.relative_coords@);
                    }
                    while k < coords.len()
                        invariant
                            k <= coords@.len(),
                            coords@ == add_center(b.center, b.relative_coords@),
                            b.wf(),
                            center == b.center,
                            player.down_direction == down,
                            kept@ == add_center(center, kept_squares(b, down, points@, k as int)),
                            kept_squares(b, down, points@, k as int).len() <= k,
                            forall|q: int| 0 <= q < kept_squares(b, down, points@, k as int).len() ==> exists|r: int| 0 <= r < k && #[trigger] kept_squares(b, down, points@, k as int)[q] == b.relative_coords@[r],
                        decreases coords@.len() - k,
                    {
                        let w = player.player_to_world(coords[k]);
                        if !contains_point(points, w) {
                            kept.push(coords[k]);
                        }
                        proof {
                            let ks = kept_squares(b, down, points@, k + 1);
                            assert(kept@ =~= add_center(center, ks));
                            assert forall|q: int| 0 <= q < ks.len() implies exists|r: int| 0 <= r < k + 1 && #[trigger] ks[q] == b.relative_coords@[r] by {
                                if q < kept_squares(b, down, points@, k as int).len() {
                                    let r = choose|r: int| 0 <= r < k && #[trigger] kept_squares(b, down, points@, k as int)[q] == b.relative_coords@[r];
                                    assert(ks[q] == b.relative_coords@[r]);
                                } else {
                                    assert(ks[q] == b.relative_coords@[k as int]);
                                }
                            }
                        }
                        k = k + 1;
                    }
                    let ghost ks = kept_squares(b, down, points@, b.relative_coords@.len() as int);
                    if kept.len() == 0 {
                        need_new_block.push(i);
                    } else {
                        proof {
                            assert forall|q: int| 0 <= q < kept@.len() implies -16 <= #[trigger] kept@[q].0 - center.0 <= 16
                                && -16 <= kept@[q].1 - center.1 <= 16 by {
                                let r = choose|r: int| 0 <= r < b.relative_coords@.len() && #[trigger] ks[q] == b.relative_coords@[r];
                                assert(-16 <= b.relative_coords@[r].0 <= 16 && -16 <= b.relative_coords@[r].1 <= 16);
                            }
                            assert(Seq::new(kept@.len(), |q: int| ((kept@[q].0 - center.0) as i8, (kept@[q].1 - center.1) as i8)) =~= ks);
                        }
                        match &mut self.players[i].block_or_timer {
                            BlockOrTimer::Block(block) => {
                                proof {
                                    assert(*block == b);
                                    if b.square_content.spec_is_drill() {
                                        assert forall|q: int| 0 <= q < kept@.len() implies crate::game_logic::blocks::in_drill_shape(((#[trigger] kept@[q].0 - center.0) as i8, (kept@[q].1 - center.1) as i8)) by {
                                            let r = choose|r: int| 0 <= r < b.relative_coords@.len() && #[trigger] ks[q] == b.relative_coords@[r];
                                            assert(crate::game_logic::blocks::in_drill_shape(b.relative_coords@[r]));
                                        }
                                    }
                                }
                                block.set_player_coords(kept.as_slice(), center);
                            },
                            _ => {},
                        }
                    }
                }
            }
            proof {
                assert(self.players@[i as int].wf());
                assert forall|j: int| 0 <= j < i implies self.players@[j] == players_before[j]
                    && (#[trigger] need_new_block@.contains(j as usize) == nn_before.contains(j as usize)) by {
                    if need_new_block@ != nn_before {
                        lemma_push_contains(nn_before, i, j as usize);
                    }
                }
                assert forall|j: int| 0 <= j < i implies #[trigger] removal_stage(old(self).players@[j], self.players@[j], need_new_block@, keep, j, points@) by {
                    assert(removal_stage(old(self).players@[j], players_before[j], nn_before, keep, j, points@));
                    assert(self.players@[j] == players_before[j]);
                    assert(need_new_block@.contains(j as usize) == nn_before.contains(j as usize));
                }
                if need_new_block@ != nn_before {
                    lemma_push_contains(nn_before, i, i);
                } else {
                    assert(!need_new_block@.contains(i)) by {
                        if need_new_block@.contains(i) {
                            let q = choose|q: int| 0 <= q < need_new_block@.len() && #[trigger] need_new_block@[q] == i;
                        }
                    }
                }
            }
            i = i + 1;
        }
        let ghost mid = *self;
        proof {
            assert(need_new_block@.take(0) =~= Seq::<usize>::empty());
        }
        let mut k: usize = 0;
        while k < need_new_block.len()
            invariant
                k <= need_new_block@.len(),
                n == self.players@.len() == old(self).players@.len(),
                forall|q: int| 0 <= q < need_new_block@.len() ==> #[trigger] need_new_block@[q] < n,
                forall|k1: int, k2: int| 0 <= k1 < k2 < need_new_block@.len() ==> need_new_block@[k1] < need_new_block@[k2],
                self.wf(),
                self.mode == old(self).mode,
                self.landed_rows == old(self).landed_rows,
                self.flashing_points == old(self).flashing_points,
                self.score == old(self).score,
                self.bomb_id_counter == old(self).bomb_id_counter,
                self.block_factory == old(self).block_factory,
                forall|j: int| 0 <= j < n && !need_new_block@.take(k as int).contains(j as usize) ==> #[trigger] self.players@[j] == mid.players@[j],
                forall|j: int| 0 <= j < n && need_new_block@.take(k as int).contains(j as usize) ==> {
                    let before = #[trigger] old(self).players@[j];
                    let after = self.players@[j];
                    &&& after.client_id == before.client_id
                    &&& after.name == before.name
                    &&& after.color == before.color
                    &&& after.spawn_point == before.spawn_point
                    &&& after.down_direction == before.down_direction
                    &&& after.block_in_hold == before.block_in_hold
                    &&& !after.fast_down
                    &&& (after.block_or_timer is TimerPending || (after.block_or_timer matches BlockOrTimer::Block(nb) && is_spawned(before.next_block, nb, before.spawn_point)))
                },
                mid.players@.len() == n,
                forall|j: int| 0 <= j < n ==> #[trigger] removal_stage(old(self).players@[j], mid.players@[j], need_new_block@, keep, j, points@),
            decreases need_new_block@.len() - k,
        {
            let j = need_new_block[k];
            proof {
                assert(need_new_block@.contains(j));
                assert(!need_new_block@.take(k as int).contains(j)) by {
                    if need_new_block@.take(k as int).contains(j) {
                        let q = choose|q: int| 0 <= q < k && #[trigger] need_new_block@.take(k as int)[q] == j;
                        assert(need_new_block@[q] < need_new_block@[k as int]);
                    }
                }
                assert(removal_stage(old(self).players@[j as int], mid.players@[j as int], need_new_block@, keep, j as int, points@));
                assert(self.players@[j as int] == mid.players@[j as int]);
                assert(self.players@[j as int] == old(self).players@[j as int]);
            }
            self.new_block(j);
            proof {
                assert(need_new_block@.take(k + 1) =~= need_new_block@.take(k as int).push(j));
                assert forall|jj: int| 0 <= jj < n implies (#[trigger] need_new_block@.take(k + 1).contains(jj as usize) == (need_new_block@.take(k as int).contains(jj as usize) || jj == j)) by {
                    if need_new_block@.take(k + 1).contains(jj as usize) && jj != j {
                        let q = choose|q: int| 0 <= q < k + 1 && #[trigger] need_new_block@.take(k + 1)[q] == jj as usize;
                        assert(need_new_block@.take(k as int)[q] == jj as usize);
                    }
                    if need_new_block@.take(k as int).contains(jj as usize) {
                        let q = choose|q: int| 0 <= q < k && #[trigger] need_new_block@.take(k as int)[q] == jj as usize;
                        assert(need_new_block@.take(k + 1)[q] == jj as usize);
                    }
                    if jj == j {
                        assert(need_new_block@.take(k + 1)[k as int] == j);
                    }
                }
            }
            k = k + 1;
        }
        proof {
            assert(need_new_block@.take(need_new_block@.len() as int) =~= need_new_block@);
            assert forall|j: int| 0 <= j < n implies (if keep == Some(j as usize) {
                #[trigger] self.players@[j] == old(self).players@[j]
            } else {
                squares_removed(old(self).players@[j], self.players@[j], points@)
            }) by {
                assert(removal_stage(old(self).players@[j], mid.players@[j], need_new_block@, keep, j, points@));
                if keep == Some(j as usize) {
                    assert(!need_new_block@.take(need_new_block@.len() as int).contains(j as usize));
                    assert(self.players@[j] == mid.players@[j]);
                } else if need_new_block@.contains(j as usize) {
                    assert(need_new_block@.take(need_new_block@.len() as int).contains(j as usize));
                } else {
                    assert(!need_new_block@.take(need_new_block@.len() as int).contains(j as usize));
                    assert(self.players@[j] == mid.players@[j]);
                }
            }
        }
    }

    /// Empties the landed squares at `points`.
    fn remove_landed_squares_at(&mut self, points: &[WorldPoint])
        requires
            old(self).wf(),
        ensures
            final(self).wf(),
            final(self).rows() == rows_without(old(self).rows(), points@, center_offset(old(self).mode)),
            final(self).players == old(self).players,
            final(self).mode == old(self).mode,
            final(self).flashing_points == old(self).flashing_points,
            final(self).score == old(self).score,
            final(self).bomb_id_counter == old(self).bomb_id_counter,
            final(self).block_factory == old(self).block_factory,
    {
        proof {
            self.lemma_wf_bounds();
        }
        let ghost start = self.rows();
        let ghost target = rows_without(start, points@, center_offset(self.mode));
        let (offset_x, offset_y) = self.get_center_offset();
        let h = self.landed_rows.len();
        let mut y: usize = 0;
        while y < h
            invariant
                y <= h == self.height() == start.len(),
                self.wf(),
                self.players == old(self).players,
                self.mode == old(self).mode,
                self.flashing_points == old(self).flashing_points,
                self.score == old(self).score,
                self.bomb_id_counter == old(self).bomb_id_counter,
                self.block_factory == old(self).block_factory,
                start == old(self).rows(),
                offset_x == center_offset(self.mode).0,
                offset_y == center_offset(self.mode).1,
                target == rows_without(start, points@, center_offset(self.mode)),
                forall|yy: int| 0 <= yy < y ==> #[trigger] self.rows()[yy] == target[yy],
                forall|yy: int| y <= yy < h ==> #[trigger] self.rows()[yy] == start[yy],
            decreases h - y,
        {
            proof {
                self.lemma_wf_bounds();
                assert(self.rows()[y as int] == self.landed_rows@[y as int]@);
            }
            let w = self.landed_rows[y].len();
            let mut row: Vec<Option<SquareContent>> = Vec::new();
            let mut x: usize = 0;
            while x < w
                invariant
                    x <= w == start[y as int].len(),
                    y < h == start.len(),
                    w <= 59,
                    y <= 37,
                    offset_x == center_offset(self.mode).0,
                    offset_y == center_offset(self.mode).1,
                    self.rows()[y as int] == start[y as int],
                    self.rows()[y as int] == self.landed_rows@[y as int]@,
                    self.landed_rows@.len() == h,
                    self.landed_rows@[y as int]@.len() == w,
                    target == rows_without(start, points@, center_offset(self.mode)),
                    row@ == target[y as int].take(x as int),
                decreases w - x,
            {
                let point = (x as i16 - offset_x, y as i16 - offset_y);
                if contains_point(points, point) {
                    row.push(None);
                } else {
                    row.push(self.landed_rows[y][x]);
                }
                proof {
                    assert(row@ =~= target[y as int].take(x + 1));
                }
                x = x + 1;
            }
            proof {
                assert(row@ =~= target[y as int]);
            }
            let ghost before = self.rows();
            self.landed_rows.set(y, row);
            proof {
                assert forall|k: int| 0 <= k < self.landed_rows@.len() implies #[trigger] self.landed_rows@[k]@.len() == self.width() by {
                    assert(self.rows()[k] == self.landed_rows@[k]@);
                }
                assert forall|yy: int| 0 <= yy < y + 1 implies #[trigger] self.rows()[yy] == target[yy] by {
                    assert(self.rows()[yy] == self.landed_rows@[yy]@);
                    if yy < y {
                        assert(before[yy] == target[yy]);
                    }
                }
                assert forall|yy: int| y + 1 <= yy < h implies #[trigger] self.rows()[yy] == start[yy] by {
                    assert(self.rows()[yy] == self.landed_rows@[yy]@);
                    assert(before[yy] == start[yy]);
                }
            }
            y = y + 1;
        }
        proof {
            assert(self.rows() =~= target);
        }
    }

    /// The world points, among the first `n` player points, where something is in the way
    /// of player `i`.
    pub open spec fn drilled_points(&self, i: int, coords: Seq<PlayerPoint>, n: int) -> Seq<WorldPoint>
        decreases n,
    {
        if n <= 0 {
            Seq::empty()
        } else {
            let earlier = self.drilled_points(i, coords, n - 1);
            let w = player_to_world_spec(self.players@[i].down_direction, coords[n - 1]);
            if self.any_square_spec(w, Some(i as usize)) is Some {
                earlier.push(w)
            } else {
                earlier
            }
        }
    }

    /// Whether the falling block of player `i` (with the given content) could be at these
    /// player coordinates: inside the area, and anything in the way can be drilled through
    /// (only when drilling is enabled).
    pub open spec fn fits_drilling(&self, i: int, coords: Seq<PlayerPoint>, content: SquareContent, enable_drilling: bool) -> bool {
        forall|k: int| 0 <= k < coords.len() ==> self.valid_moving(#[trigger] coords[k])
            && match self.any_square_spec(player_to_world_spec(self.players@[i].down_direction, coords[k]), Some(i as usize)) {
                Some(other) => enable_drilling && content.spec_is_drill() && !other.spec_is_drill(),
                None => true,
            }
    }

    /// Where the squares of a block would be after moving it by (dx, dy).
    pub open spec fn moved_coords(b: FallingBlock, dx: int, dy: int) -> Seq<PlayerPoint> {
        add_center(b.center, Seq::new(b.relative_coords@.len(), |k: int| ((b.relative_coords@[k].0 + dx) as i8, (b.relative_coords@[k].1 + dy) as i8)))
    }

    /// `after` is this game after an attempt to move the block of player `i` one step down,
    /// drilling through what is in the way if it is a drill (see `move_if_possible`).
    pub open spec fn step_down_result(&self, i: int, after: Game) -> bool {
        let moved = self.move_condition(i, 0, 1, true);
        &&& after.wf()
        &&& after.mode == self.mode
        &&& after.flashing_points == self.flashing_points
        &&& after.score == self.score
        &&& after.bomb_id_counter == self.bomb_id_counter
        &&& after.block_factory == self.block_factory
        &&& after.players@.len() == self.players@.len()
        &&& !moved ==> after.players == self.players && after.landed_rows == self.landed_rows
        &&& moved ==> (self.players@[i].block_or_timer matches BlockOrTimer::Block(b) && {
            let drilled = self.drilled_points(i, Self::moved_coords(b, 0, 1), b.relative_coords@.len() as int);
            &&& same_except_block(after.players@[i], self.players@[i])
            &&& after.players@[i].block_or_timer matches BlockOrTimer::Block(nb)
            &&& nb.center == (b.center.0, (b.center.1 + 1) as i32)
            &&& nb.relative_coords@ == b.relative_coords@
            &&& nb.square_content == b.square_content
            &&& nb.rotate_mode == b.rotate_mode
            &&& nb.has_been_in_hold == b.has_been_in_hold
            &&& forall|j: int| 0 <= j < self.players@.len() && j != i ==> squares_removed(
                self.players@[j], #[trigger] after.players@[j], drilled)
            &&& after.rows() == rows_without(self.rows(), drilled, center_offset(self.mode))
        })
    }

    /// The landed squares of `after` are those of this game with the squares at the points
    /// `wc` put down: each holds what the square of content `c` at the matching place `rels`
    /// becomes when it lands (for direction `dir`); the other squares are as they were.
    pub open spec fn landed_at(&self, wc: Seq<WorldPoint>, rels: Seq<BlockRelativeCoords>, c: SquareContent, dir: (i8, i8), after: Game) -> bool {
        &&& forall|pt: WorldPoint| self.in_array(pt) && !wc.contains(pt) ==> #[trigger] after.landed(pt) == self.landed(pt)
        &&& forall|q: int| 0 <= q < wc.len() ==> #[trigger] after.landed(wc[q]) is Some && exists|q2: int|
            0 <= q2 < wc.len() && wc[q2] == wc[q] && landed_content_of(c, #[trigger] rels[q2], dir, after.landed(wc[q])->Some_0)
    }

    /// `after` is this game with the block `b` of player `i` landed, nothing else changed.
    pub open spec fn landed_block(&self, i: int, b: FallingBlock, after: Game) -> bool {
        let p = self.players@[i];
        &&& after.wf()
        &&& after.players == self.players
        &&& after.mode == self.mode
        &&& after.flashing_points == self.flashing_points
        &&& after.score == self.score
        &&& after.bomb_id_counter == self.bomb_id_counter
        &&& after.block_factory == self.block_factory
        &&& after.height() == self.height()
        &&& self.landed_at(block_world_coords(p, b), b.relative_coords@, b.square_content,
            (p.down_direction.0 as i8, p.down_direction.1 as i8), after)
    }

    /// All the points are inside the playing area.
    pub open spec fn all_valid_landed(&self, wc: Seq<WorldPoint>) -> bool {
        forall|q: int| 0 <= q < wc.len() ==> self.valid_landed(#[trigger] wc[q])
    }

    /// `after` is this game after the block of player `i` could not move down in a step of
    /// the given speed: with `fast`, only the player's "fast down" flag is cleared; otherwise
    /// the block lands if all its squares are inside the playing area and the player gets a
    /// new block, or else the block is gone and the player gets a pending timer.
    pub open spec fn finish_result(&self, i: int, fast: bool, after: Game) -> bool {
        let p = self.players@[i];
        &&& after.wf()
        &&& after.mode == self.mode
        &&& after.flashing_points == self.flashing_points
        &&& after.score == self.score
        &&& after.bomb_id_counter == self.bomb_id_counter
        &&& after.block_factory == self.block_factory
        &&& after.players@.len() == self.players@.len()
        &&& after.height() == self.height()
        &&& forall|j: int| 0 <= j < self.players@.len() && j != i ==> #[trigger] after.players@[j] == self.players@[j]
        &&& fast ==> after.players@[i] == (Player { fast_down: false, ..p }) && after.landed_rows == self.landed_rows
        &&& !fast ==> match p.block_or_timer {
            BlockOrTimer::Block(b) => if self.all_valid_landed(block_world_coords(p, b)) {
                exists|mid: Game| #[trigger] self.landed_block(i, b, mid) && after.landed_rows == mid.landed_rows
                    && mid.got_new_block(after.players@[i], i, false)
            } else {
                after.players@[i] == (Player { block_or_timer: BlockOrTimer::TimerPending, ..p })
                    && after.landed_rows == self.landed_rows
            },
            _ => after.players == self.players && after.landed_rows == self.landed_rows,
        }
    }

    /// The moving part of a step of the given speed, from this game to `mid`: the blocks of
    /// the players in `attempts` tried to move one step down one after the other (`states`
    /// are the games in between); every player whose block falls in this step tried, nobody
    /// tried again after moving, and `remaining` holds the players whose blocks never moved
    /// (falling drills first, each part in the order of the players), none of which can
    /// move in `mid`.
    pub open spec fn moved_down_result(&self, fast: bool, states: Seq<Game>, attempts: Seq<usize>, remaining: Seq<usize>, mid: Game) -> bool {
        &&& step_down_trace(states, attempts)
        &&& states[0] == *self
        &&& states.last() == mid
        &&& forall|k: int| 0 <= k < attempts.len() ==> #[trigger] attempts[k] < self.players@.len()
            && is_mover(self.players@[attempts[k] as int], fast)
        &&& forall|j: int| 0 <= j < self.players@.len() && is_mover(#[trigger] self.players@[j], fast) ==> attempts.contains(j as usize)
        &&& forall|k1: int, k2: int| #![trigger attempts[k1], attempts[k2]] 0 <= k1 < k2 < attempts.len() && attempts[k1] == attempts[k2]
            ==> !succeeded(states, attempts, k1)
        &&& forall|a: int| 0 <= a < remaining.len() ==> #[trigger] remaining[a] < self.players@.len()
        &&& forall|j: int| #![trigger self.players@[j]] 0 <= j < self.players@.len() ==> (remaining.contains(j as usize) <==>
            is_mover(self.players@[j], fast) && forall|k: int| 0 <= k < attempts.len() && #[trigger] attempts[k] == j ==> !succeeded(states, attempts, k))
        &&& forall|a: int, b: int| #![trigger remaining[a], remaining[b]] 0 <= a < b < remaining.len() ==>
            (falling_drill(self.players@[remaining[b] as int]) ==> falling_drill(self.players@[remaining[a] as int]))
            && (falling_drill(self.players@[remaining[a] as int]) == falling_drill(self.players@[remaining[b] as int]) ==> remaining[a] < remaining[b])
        &&& forall|a: int| 0 <= a < remaining.len() ==> !mid.move_condition(#[trigger] remaining[a] as int, 0, 1, true)
    }

    /// The blocks of the players in `remaining` are finished one after the other (see
    /// `finish_result`), from this game to `after`; `fstates` are the games in between.
    pub open spec fn finished_result(&self, fast: bool, remaining: Seq<usize>, fstates: Seq<Game>, after: Game) -> bool {
        &&& fstates.len() == remaining.len() + 1
        &&& fstates[0] == *self
        &&& fstates.last() == after
        &&& forall|q: int| 0 <= q < remaining.len() ==> #[trigger] fstates[q].finish_result(remaining[q] as int, fast, fstates[q + 1])
    }

    /// Moves the falling block of player `i` by (dx, dy) if it fits there; with drilling
    /// enabled, a drill goes through what is in its way, and those squares disappear.
    /// Returns whether the block moved. (A block whose center would get near the limits of
    /// `i32` does not move.)
    fn move_if_possible(&mut self, player_idx: usize, dx: i8, dy: i8, enable_drilling: bool) -> (r: bool)
        requires
            old(self).wf(),
            player_idx < old(self).players@.len(),
            -1 <= dx <= 1,
            -1 <= dy <= 1,
        ensures
            final(self).wf(),
            final(self).mode == old(self).mode,
            final(self).flashing_points == old(self).flashing_points,
            final(self).score == old(self).score,
            final(self).bomb_id_counter == old(self).bomb_id_counter,
            final(self).block_factory == old(self).block_factory,
            final(self).players@.len() == old(self).players@.len(),
            r == old(self).move_condition(player_idx as int, dx as int, dy as int, enable_drilling),
            !r ==> final(self).players == old(self).players && final(self).landed_rows == old(self).landed_rows,
            r && !enable_drilling ==> final(self).landed_rows == old(self).landed_rows
                && forall|j: int| 0 <= j < old(self).players@.len() && j != player_idx ==> #[trigger] final(self).players@[j] == old(self).players@[j],
            r ==> (old(self).players@[player_idx as int].block_or_timer matches BlockOrTimer::Block(b) && {
                let drilled = old(self).drilled_points(player_idx as int, Self::moved_coords(b, dx as int, dy as int), b.relative_coords@.len() as int);
                &&& same_except_block(final(self).players@[player_idx as int], old(self).players@[player_idx as int])
                &&& final(self).players@[player_idx as int].block_or_timer matches BlockOrTimer::Block(nb)
                &&& nb.center == ((b.center.0 + dx) as i32, (b.center.1 + dy) as i32)
                &&& nb.relative_coords@ == b.relative_coords@
                &&& nb.square_content == b.square_content
                &&& nb.rotate_mode == b.rotate_mode
                &&& nb.has_been_in_hold == b.has_been_in_hold
                &&& forall|j: int| 0 <= j < old(self).players@.len() && j != player_idx ==> squares_removed(
                    old(self).players@[j], #[trigger] final(self).players@[j], drilled)
                &&& final(self).rows() == rows_without(old(self).rows(), drilled, center_offset(old(self).mode))
            }),
    {
        proof {
            assert(self.players@[player_idx as int].wf());
        }
        let (content, coords, center) = match &self.players[player_idx].block_or_timer {
            BlockOrTimer::Block(block) => (block.square_content, block.get_moved_coords(dx, dy), block.center),
            _ => return false,
        };
        let ghost b = match self.players@[player_idx as int].block_or_timer {
            BlockOrTimer::Block(b) => b,
            _ => arbitrary(),
        };
        let (cx, cy) = center;
        let new_x = cx as i64 + dx as i64;
        let new_y = cy as i64 + dy as i64;
        if new_x < i32::MIN as i64 + 128 || new_x > i32::MAX as i64 - 128 || new_y < i32::MIN as i64 + 128 || new_y > i32::MAX as i64 - 128 {
            return false;
        }
        proof {
            assert(self.players@[player_idx as int].wf());
            assert(b.wf());
            assert(crate::game_logic::blocks::coords_bounded(b.relative_coords@));
            assert(coords@.len() == b.relative_coords@.len());
            assert forall|k: int| 0 <= k < coords@.len() implies i32::MIN + 100 <= #[trigger] coords@[k].1 <= i32::MAX - 100 by {
                assert(-16 <= b.relative_coords@[k].0 <= 16 && -16 <= b.relative_coords@[k].1 <= 16);
            }
        }
        let mut gonna_drill: Vec<WorldPoint> = Vec::new();
        let mut can_move = true;
        let mut k: usize = 0;
        while k < coords.len()
            invariant
                k <= coords@.len(),
                self.wf(),
                self == old(self),
                player_idx < self.players@.len(),
                self.players@[player_idx as int].block_or_timer == BlockOrTimer::Block(b),
                content == b.square_content,
                coords@ == Self::moved_coords(b, dx as int, dy as int),
                forall|j: int| 0 <= j < coords@.len() ==> i32::MIN + 100 <= #[trigger] coords@[j].1 <= i32::MAX - 100,
                can_move == forall|j: int| 0 <= j < k ==> self.valid_moving(#[trigger] coords@[j])
                    && match self.any_square_spec(player_to_world_spec(self.players@[player_idx as int].down_direction, coords@[j]), Some(player_idx)) {
                        Some(other) => enable_drilling && content.spec_is_drill() && !other.spec_is_drill(),
                        None => true,
                    },
                can_move ==> gonna_drill@ == self.drilled_points(player_idx as int, coords@, k as int),
                !enable_drilling ==> gonna_drill@.len() == 0,
            decreases coords@.len() - k,
        {
            if can_move {
                let p = coords[k];
                if !self.is_valid_moving_block_coords(p) {
                    can_move = false;
                } else {
                    let w = self.players[player_idx].player_to_world(p);
                    match self.get_any_square(w, Some(player_idx)) {
                        Some(other) => {
                            if enable_drilling && content.can_drill(&other) {
                                gonna_drill.push(w);
                            } else {
                                can_move = false;
                            }
                        },
                        None => {},
                    }
                }
            }
            k = k + 1;
        }
        proof {
            assert(coords@.len() == b.relative_coords@.len());
        }
        if can_move {
            match &mut self.players[player_idx].block_or_timer {
                BlockOrTimer::Block(block) => block.m0v3(dx, dy),
                _ => {},
            }
            let ghost moved = *self;
            proof {
                assert(self.players@[player_idx as int].wf());
                assert(self.wf());
            }
            if gonna_drill.len() > 0 {
                self.remove_falling_squares_at(gonna_drill.as_slice(), Some(player_idx));
                proof {
                    assert(self.players@[player_idx as int] == moved.players@[player_idx as int]);
                }
                self.remove_landed_squares_at(gonna_drill.as_slice());
            } else {
                proof {
                    assert forall|j: int| 0 <= j < self.players@.len() && j != player_idx implies
                        squares_removed(old(self).players@[j], #[trigger] self.players@[j], gonna_drill@) by {
                        assert(self.players@[j] == old(self).players@[j]);
                        assert(old(self).players@[j].wf());
                        lemma_nothing_removed(old(self).players@[j], gonna_drill@);
                    }
                    lemma_rows_without_nothing(self.rows(), gonna_drill@, center_offset(self.mode));
                }
            }
        }
        can_move
    }

    /// The player points one step lower.
    pub open spec fn shifted_down(coords: Seq<PlayerPoint>) -> Seq<PlayerPoint> {
        coords.map_values(|c: PlayerPoint| (c.0, (c.1 + 1) as i32))
    }

    /// Whether squares of player `i` with the given content could move one step down from
    /// these player points (drilling through what a drill can drill).
    pub open spec fn can_move_down(&self, i: int, content: SquareContent, coords: Seq<PlayerPoint>) -> bool {
        forall|k: int| 0 <= k < coords.len() ==> {
            let below = (#[trigger] coords[k].0, (coords[k].1 + 1) as i32);
            &&& self.valid_moving(below)
            &&& match self.any_square_spec(player_to_world_spec(self.players@[i].down_direction, below), Some(i as usize)) {
                Some(other) => content.spec_is_drill() && !other.spec_is_drill(),
                None => true,
            }
        }
    }

    /// Where squares of player `i` would land, moving down from `coords` for at most
    /// `steps` steps; `None` if they would still be moving.
    pub open spec fn landing_place(&self, i: int, content: SquareContent, coords: Seq<PlayerPoint>, steps: nat) -> Option<Seq<PlayerPoint>>
        decreases steps,
    {
        if steps == 0 {
            None
        } else if self.can_move_down(i, content, coords) {
            self.landing_place(i, content, Self::shifted_down(coords), (steps - 1) as nat)
        } else {
            Some(coords)
        }
    }

    /// The world points where the falling block of player `i` would land if it moved
    /// straight down; empty if it has no block or would not land within 40 steps.
    pub open spec fn landing_points(&self, i: int) -> Seq<WorldPoint> {
        match self.players@[i].block_or_timer {
            BlockOrTimer::Block(b) => match self.landing_place(i, b.square_content, add_center(b.center, b.relative_coords@), 40) {
                Some(c) => c.map_values(|q: PlayerPoint| player_to_world_spec(self.players@[i].down_direction, q)),
                None => Seq::empty(),
            },
            _ => Seq::empty(),
        }
    }

    /// The world points where the falling block of player `i` would land if it moved
    /// straight down; empty if it has no block or would not land within 40 steps (common in
    /// ring mode).
    pub fn predict_landing_place(&self, player_idx: usize) -> (r: Vec<WorldPoint>)
        requires
            self.wf(),
            player_idx < self.players@.len(),
        ensures
            r@ == self.landing_points(player_idx as int),
    {
        proof {
            assert(self.players@[player_idx as int].wf());
        }
        let player = &self.players[player_idx];
        let (content, mut working_coords) = match &player.block_or_timer {
            BlockOrTimer::Block(block) => {
                proof {
                    crate::game_logic::blocks::lemma_add_center_bounds(block.center, block.relative_coords@);
                }
                (block.square_content, block.get_coords())
            },
            _ => return Vec::new(),
        };
        let ghost start = working_coords@;
        let mut steps: usize = 0;
        while steps < 40
            invariant
                steps <= 40,
                self.wf(),
                player_idx < self.players@.len(),
                *player == self.players@[player_idx as int],
                self.players@[player_idx as int].block_or_timer matches BlockOrTimer::Block(b)
                    && content == b.square_content && start == add_center(b.center, b.relative_coords@),
                forall|k: int| 0 <= k < working_coords@.len() ==> i32::MIN + 100 <= #[trigger] working_coords@[k].1 <= i32::MAX - 100 + steps,
                self.landing_place(player_idx as int, content, start, 40) == self.landing_place(player_idx as int, content, working_coords@, (40 - steps) as nat),
            decreases 40 - steps,
        {
            let mut can_move = true;
            let mut k: usize = 0;
            while k < working_coords.len()
                invariant
                    k <= working_coords@.len(),
                    steps < 40,
                    self.wf(),
                    player_idx < self.players@.len(),
                    *player == self.players@[player_idx as int],
                    forall|q: int| 0 <= q < working_coords@.len() ==> i32::MIN + 100 <= #[trigger] working_coords@[q].1 <= i32::MAX - 100 + steps,
                    can_move == forall|q: int| 0 <= q < k ==> {
                        let below = (#[trigger] working_coords@[q].0, (working_coords@[q].1 + 1) as i32);
                        &&& self.valid_moving(below)
                        &&& match self.any_square_spec(player_to_world_spec(self.players@[player_idx as int].down_direction, below), Some(player_idx)) {
                            Some(other) => content.spec_is_drill() && !other.spec_is_drill(),
                            None => true,
                        }
                    },
                decreases working_coords@.len() - k,
            {
                if can_move {
                    let (x, y) = working_coords[k];
                    let below = (x, y + 1);
                    if !self.is_valid_moving_block_coords(below) {
                        can_move = false;
                    } else {
                        match self.get_any_square(player.player_to_world(below), Some(player_idx)) {
                            Some(other) => {
                                if !content.can_drill(&other) {
                                    can_move = false;
                                }
                            },
                            None => {},
                        }
                    }
                }
                k = k + 1;
            }
            if can_move {
                let ghost before = working_coords@;
                let mut q: usize = 0;
                while q < working_coords.len()
                    invariant
                        q <= working_coords@.len() == before.len(),
                        forall|j: int| 0 <= j < before.len() ==> i32::MIN + 100 <= #[trigger] before[j].1 <= i32::MAX - 100 + steps,
                        steps < 40,
                        forall|j: int| 0 <= j < q ==> #[trigger] working_coords@[j] == (before[j].0, (before[j].1 + 1) as i32),
                        forall|j: int| q <= j < before.len() ==> #[trigger] working_coords@[j] == before[j],
                    decreases before.len() - q,
                {
                    let (x, y) = working_coords[q];
                    working_coords.set(q, (x, y + 1));
                    q = q + 1;
                }
                proof {
                    assert(working_coords@ =~= Self::shifted_down(before));
                }
            } else {
                let mut result: Vec<WorldPoint> = Vec::new();
                let mut q: usize = 0;
                while q < working_coords.len()
                    invariant
                        q <= working_coords@.len(),
                        result@ == working_coords@.take(q as int).map_values(|c: PlayerPoint| player_to_world_spec(player.down_direction, c)),
                    decreases working_coords@.len() - q,
                {
                    result.push(player.player_to_world(working_coords[q]));
                    proof {
                        assert(result@ =~= working_coords@.take(q + 1).map_values(|c: PlayerPoint| player_to_world_spec(player.down_direction, c)));
                    }
                    q = q + 1;
                }
                proof {
                    assert(working_coords@.take(working_coords@.len() as int) =~= working_coords@);
                    assert(!self.can_move_down(player_idx as int, content, working_coords@));
                    assert(self.landing_place(player_idx as int, content, working_coords@, (40 - steps) as nat) == Some(working_coords@));
                }
                return result;
            }
            steps = steps + 1;
        }
        // The block won't land if it moves down. Happens a lot in ring mode.
        Vec::new()
    }

    /// In a ring game with one player, turns the view upside down unless landed squares are
    /// where the falling block would then be; returns whether it turned.
    fn flip_view(&mut self) -> (r: bool)
        requires
            old(self).wf(),
        ensures
            final(self).wf(),
            final(self).mode == old(self).mode,
            final(self).landed_rows == old(self).landed_rows,
            final(self).flashing_points == old(self).flashing_points,
            final(self).score == old(self).score,
            final(self).bomb_id_counter == old(self).bomb_id_counter,
            final(self).block_factory == old(self).block_factory,
            final(self).players@.len() == old(self).players@.len(),
            r == old(self).flip_condition(),
            !r ==> final(self).players == old(self).players,
            r ==> ({
                let p = old(self).players@[0];
                let q = final(self).players@[0];
                &&& q.down_direction == ((-p.down_direction.0) as i16, (-p.down_direction.1) as i16)
                &&& q.client_id == p.client_id && q.name == p.name && q.color == p.color
                &&& q.spawn_point == p.spawn_point && q.block_or_timer == p.block_or_timer
                &&& q.next_block == p.next_block && q.block_in_hold == p.block_in_hold && q.fast_down == p.fast_down
            }),
    {
        if self.mode != Mode::Ring || self.players.len() != 1 {
            return false;
        }
        proof {
            self.lemma_wf_bounds();
            assert(self.players@[0].wf());
        }
        let coords = match &self.players[0].block_or_timer {
            BlockOrTimer::Block(block) => {
                proof {
                    crate::game_logic::blocks::lemma_add_center_bounds(block.center, block.relative_coords@);
                }
                block.get_coords()
            },
            _ => return false,
        };
        let mut k: usize = 0;
        while k < coords.len()
            invariant
                k <= coords@.len(),
                self.wf(),
                self == old(self),
                self.mode == Mode::Ring,
                self.players@.len() == 1,
                coords@ == self.players@[0].block_or_timer.spec_coords(),
                forall|q: int| 0 <= q < coords@.len() ==> i32::MIN + 100 <= #[trigger] coords@[q].0 <= i32::MAX - 100 && i32::MIN + 100 <= coords@[q].1 <= i32::MAX - 100,
                forall|q: int| 0 <= q < k ==> {
                    let c = #[trigger] coords@[q];
                    let flipped = player_to_world_spec(self.players@[0].down_direction, ((-c.0) as i32, (-c.1) as i32));
                    !(self.valid_landed(flipped) && self.landed(flipped) is Some)
                },
            decreases coords@.len() - k,
        {
            proof {
                self.lemma_wf_bounds();
            }
            let (x, y) = coords[k];
            let flipped_point = self.players[0].player_to_world((-x, -y));
            if self.is_valid_landed_block_coords(flipped_point) && self.get_landed_square(flipped_point).is_some() {
                return false;
            }
            k = k + 1;
        }
        let (down_x, down_y) = self.players[0].down_direction;
        self.players[0].down_direction = (-down_x, -down_y);
        proof {
            assert(self.players@[0].wf());
        }
        true
    }

    /// Advances the animations of the falling drills (falling, next and held blocks of every
    /// player); returns whether there were any.
    pub fn animate_drills(&mut self) -> (r: bool)
        requires
            old(self).wf(),
        ensures
            game_step(*old(self), *final(self)),
            final(self).wf(),
            final(self).mode == old(self).mode,
            final(self).landed_rows == old(self).landed_rows,
            final(self).flashing_points == old(self).flashing_points,
            final(self).score == old(self).score,
            final(self).bomb_id_counter == old(self).bomb_id_counter,
            final(self).block_factory == old(self).block_factory,
            final(self).players@.len() == old(self).players@.len(),
            r == exists|j: int| 0 <= j < old(self).players@.len() && #[trigger] has_falling_drill(old(self).players@[j]),
            forall|j: int| 0 <= j < old(self).players@.len() ==> animated(old(self).players@[j], #[trigger] final(self).players@[j]),
    {
        let mut something_changed = false;
        let n = self.players.len();
        let mut i: usize = 0;
        while i < n
            invariant
                i <= n == self.players@.len() == old(self).players@.len(),
                self.wf(),
                self.mode == old(self).mode,
                self.landed_rows == old(self).landed_rows,
                self.flashing_points == old(self).flashing_points,
                self.score == old(self).score,
                self.bomb_id_counter == old(self).bomb_id_counter,
                self.block_factory == old(self).block_factory,
                something_changed == exists|j: int| 0 <= j < i && #[trigger] has_falling_drill(old(self).players@[j]),
                forall|j: int| 0 <= j < i ==> animated(old(self).players@[j], #[trigger] self.players@[j]),
                forall|j: int| i <= j < n ==> #[trigger] self.players@[j] == old(self).players@[j],
            decreases n - i,
        {
            proof {
                assert(self.players@[i as int].wf());
            }
            let ghost before = self.players@[i as int];
            match &mut self.players[i].block_or_timer {
                BlockOrTimer::Block(b) => {
                    if b.square_content.animate() {
                        something_changed = true;
                    }
                },
                _ => {},
            }
            if self.players[i].next_block.square_content.animate() {
                something_changed = true;
            }
            match &mut self.players[i].block_in_hold {
                Some(b) => {
                    if b.square_content.animate() {
                        something_changed = true;
                    }
                },
                None => {},
            }
            proof {
                assert(animated(before, self.players@[i as int]));
                assert(self.players@[i as int].wf());
                if has_falling_drill(before) {
                    assert(something_changed);
                }
            }
            i = i + 1;
        }
        something_changed
    }

    /// Tries to move the blocks of the given players one step down; returns the players
    /// whose blocks did not move, in the same order.
    fn keep_unmoved(&mut self, indexes: Vec<usize>) -> (r: Vec<usize>)
        requires
            old(self).wf(),
            forall|k: int| 0 <= k < indexes@.len() ==> #[trigger] indexes@[k] < old(self).players@.len(),
        ensures
            final(self).wf(),
            final(self).mode == old(self).mode,
            final(self).flashing_points == old(self).flashing_points,
            final(self).score == old(self).score,
            final(self).bomb_id_counter == old(self).bomb_id_counter,
            final(self).block_factory == old(self).block_factory,
            final(self).players@.len() == old(self).players@.len(),
            forall|j: int| 0 <= j < old(self).players@.len() ==> same_identity(#[trigger] final(self).players@[j], old(self).players@[j]),
            r@.len() <= indexes@.len(),
            forall|k: int| 0 <= k < r@.len() ==> #[trigger] r@[k] < old(self).players@.len(),
            forall|k: int| 0 <= k < r@.len() ==> indexes@.contains(#[trigger] r@[k]),
            r@.len() == indexes@.len() ==> r@ == indexes@ && final(self).players == old(self).players
                && final(self).landed_rows == old(self).landed_rows,
            rows_shrunk(old(self).rows(), final(self).rows()),
            forall|j: int| 0 <= j < old(self).players@.len() && #[trigger] final(self).players@[j].fast_down ==> old(self).players@[j].fast_down,
            exists|states: Seq<Game>| #[trigger] step_down_trace(states, indexes@) && states[0] == *old(self)
                && states.last() == *final(self) && r@ == kept_in_trace(states, indexes@, indexes@.len() as int),
            increasing(indexes@) ==> increasing(r@),
            r@.len() == indexes@.len() ==> *final(self) == *old(self)
                && forall|k: int| 0 <= k < indexes@.len() ==> !old(self).move_condition(#[trigger] indexes@[k] as int, 0, 1, true),
    {
        let ghost mut states: Seq<Game> = seq![*self];
        let mut kept: Vec<usize> = Vec::new();
        let mut k: usize = 0;
        while k < indexes.len()
            invariant
                k <= indexes@.len(),
                kept@.len() <= k,
                self.wf(),
                self.mode == old(self).mode,
                self.flashing_points == old(self).flashing_points,
                self.score == old(self).score,
                self.bomb_id_counter == old(self).bomb_id_counter,
                self.block_factory == old(self).block_factory,
                self.players@.len() == old(self).players@.len(),
                forall|j: int| 0 <= j < old(self).players@.len() ==> same_identity(#[trigger] self.players@[j], old(self).players@[j]),
                forall|q: int| 0 <= q < indexes@.len() ==> #[trigger] indexes@[q] < old(self).players@.len(),
                forall|q: int| 0 <= q < kept@.len() ==> #[trigger] kept@[q] < old(self).players@.len(),
                forall|q: int| 0 <= q < kept@.len() ==> indexes@.take(k as int).contains(#[trigger] kept@[q]),
                kept@.len() == k ==> kept@ == indexes@.take(k as int) && self.players == old(self).players
                    && self.landed_rows == old(self).landed_rows,
                kept@.len() == k ==> *self == *old(self)
                    && forall|q: int| 0 <= q < k ==> !old(self).move_condition(#[trigger] indexes@[q] as int, 0, 1, true),
                rows_shrunk(old(self).rows(), self.rows()),
                forall|j: int| 0 <= j < old(self).players@.len() && #[trigger] self.players@[j].fast_down ==> old(self).players@[j].fast_down,
                step_down_trace(states, indexes@.take(k as int)),
                states[0] == *old(self),
                states.last() == *self,
                kept@ == kept_in_trace(states, indexes@, k as int),
            decreases indexes@.len() - k,
        {
            let ghost before = *self;
            let ghost kept_before = kept@;
            let i = indexes[k];
            let moved = self.move_if_possible(i, 0, 1, true);
            if !moved {
                kept.push(i);
            }
            proof {
                assert forall|j: int| 0 <= j < old(self).players@.len() implies same_identity(#[trigger] self.players@[j], old(self).players@[j]) by {
                    assert(same_identity(before.players@[j], old(self).players@[j]));
                }
                assert(indexes@.take(k + 1) =~= indexes@.take(k as int).push(i));
                assert forall|q: int| 0 <= q < kept@.len() implies indexes@.take(k + 1).contains(#[trigger] kept@[q]) by {
                    if q < kept_before.len() {
                        assert(indexes@.take(k as int).contains(kept_before[q]));
                        let w = choose|w: int| 0 <= w < indexes@.take(k as int).len() && indexes@.take(k as int)[w] == kept_before[q];
                        assert(indexes@.take(k + 1)[w] == kept_before[q]);
                    } else {
                        assert(indexes@.take(k + 1)[k as int] == i);
                    }
                }
                if moved {
                    lemma_rows_without_shrinks(before.rows(), self.rows(), center_offset(before.mode));
                    assert forall|j: int| 0 <= j < old(self).players@.len() && #[trigger] self.players@[j].fast_down implies old(self).players@[j].fast_down by {
                        if j == i {
                        } else {
                            assert(squares_removed(before.players@[j], self.players@[j], before.drilled_points(i as int,
                                Self::moved_coords(before.players@[i as int].block_or_timer->Block_0, 0, 1),
                                (before.players@[i as int].block_or_timer->Block_0).relative_coords@.len() as int)));
                        }
                    }
                } else {
                    assert(kept@ =~= kept_before.push(i));
                    if kept@.len() == k + 1 {
                        assert(*self == before);
                        assert forall|q: int| 0 <= q < k + 1 implies !old(self).move_condition(#[trigger] indexes@[q] as int, 0, 1, true) by {
                            if q == k {
                                assert(indexes@[q] == i);
                            }
                        }
                    }
                }
                lemma_rows_shrunk_trans(old(self).rows(), before.rows(), self.rows());
                let prev_states = states;
                states = states.push(*self);
                assert(before.step_down_result(i as int, *self));
                assert forall|q: int| 0 <= q < k + 1 implies #[trigger] states[q].step_down_result(indexes@.take(k + 1)[q] as int, states[q + 1]) by {
                    if q < k {
                        assert(prev_states[q].step_down_result(indexes@.take(k as int)[q] as int, prev_states[q + 1]));
                        assert(states[q] == prev_states[q]);
                        assert(states[q + 1] == prev_states[q + 1]);
                    }
                }
                lemma_kept_in_trace_prefix(prev_states, states, indexes@, indexes@, k as int);
                assert(states[k as int] == before);
            }
            k = k + 1;
        }
        proof {
            assert(indexes@.take(indexes@.len() as int) =~= indexes@);
            assert(step_down_trace(states, indexes@));
            if increasing(indexes@) {
                lemma_kept_in_trace_increasing(states, indexes@, indexes@.len() as int);
            }
        }
        kept
    }

    /// Finishes the step for player `i`, whose block could not move down (see
    /// `finish_result`); returns whether there was a falling block to land or remove (never
    /// with `fast`).
    fn finish_move(&mut self, i: usize, fast: bool) -> (r: bool)
        requires
            old(self).wf(),
            i < old(self).players@.len(),
        ensures
            old(self).finish_result(i as int, fast, *final(self)),
            r == (!fast && old(self).players@[i as int].block_or_timer is Block),
    {
        proof {
            assert(self.players@[i as int].wf());
        }
        if fast {
            self.players[i].fast_down = false;
            proof {
                assert(self.players@[i as int].wf());
            }
            return false;
        }
        let ghost before = *self;
        let ghost p = self.players@[i as int];
        let player = &self.players[i];
        let (player_coords, relative_coords, square_content) = match &player.block_or_timer {
            BlockOrTimer::Block(b) => (b.get_coords(), crate::game_logic::blocks::copy_coords(&b.relative_coords), b.square_content),
            _ => {
                return false;
            },
        };
        let ghost block = match p.block_or_timer {
            BlockOrTimer::Block(b) => b,
            _ => arbitrary(),
        };
        let mut world_coords: Vec<WorldPoint> = Vec::new();
        let mut q: usize = 0;
        while q < player_coords.len()
            invariant
                q <= player_coords@.len(),
                world_coords@.len() == q,
                player_coords@ == add_center(block.center, block.relative_coords@),
                player.down_direction == p.down_direction,
                forall|j: int| 0 <= j < q ==> #[trigger] world_coords@[j] == player_to_world_spec(p.down_direction, player_coords@[j]),
            decreases player_coords@.len() - q,
        {
            world_coords.push(player.player_to_world(player_coords[q]));
            q = q + 1;
        }
        proof {
            assert(world_coords@ =~= block_world_coords(p, block));
        }
        let mut all_valid = true;
        let mut q: usize = 0;
        while q < world_coords.len()
            invariant
                q <= world_coords@.len(),
                self.wf(),
                all_valid == forall|j: int| 0 <= j < q ==> self.valid_landed(#[trigger] world_coords@[j]),
            decreases world_coords@.len() - q,
        {
            if !self.is_valid_landed_block_coords(world_coords[q]) {
                all_valid = false;
            }
            q = q + 1;
        }
        if all_valid {
            // land the block
            let (down_x, down_y) = player.down_direction;
            let direction = (down_x as i8, down_y as i8);
            proof {
                self.lemma_wf_bounds();
                assert(world_coords@.take(0) =~= Seq::<WorldPoint>::empty());
            }
            let mut q: usize = 0;
            while q < world_coords.len() && q < relative_coords.len()
                invariant
                    q <= world_coords@.len(),
                    world_coords@ == block_world_coords(p, block),
                    relative_coords@ == block.relative_coords@,
                    square_content == block.square_content,
                    direction == (p.down_direction.0 as i8, p.down_direction.1 as i8),
                    self.wf(),
                    i < self.players@.len(),
                    self.players == before.players,
                    self.mode == before.mode,
                    self.flashing_points == before.flashing_points,
                    self.score == before.score,
                    self.bomb_id_counter == before.bomb_id_counter,
                    self.block_factory == before.block_factory,
                    self.height() == before.height(),
                    forall|j: int| 0 <= j < world_coords@.len() ==> self.valid_landed(#[trigger] world_coords@[j]),
                    block.wf(),
                    crate::game_logic::is_unit_direction(direction),
                    before.landed_at(world_coords@.take(q as int), relative_coords@, square_content, direction, *self),
                decreases world_coords@.len() - q,
            {
                let ghost prev = *self;
                let ghost wc = world_coords@;
                proof {
                    self.lemma_wf_bounds();
                    assert(self.valid_landed(world_coords@[q as int]));
                    if square_content is FallingDrill {
                        assert(crate::game_logic::blocks::in_drill_shape(block.relative_coords@[q as int]));
                    }
                }
                let landed_content = square_content.get_landed_content(relative_coords[q], direction);
                self.set_landed_square(world_coords[q], Some(landed_content));
                proof {
                    self.lemma_wf_bounds();
                    assert forall|j: int| 0 <= j < wc.len() implies #[trigger] prev.in_array(wc[j]) by {
                        assert(prev.valid_landed(wc[j]));
                    }
                    lemma_landed_at_step(before, prev, *self, wc, relative_coords@, square_content, direction, q as int, landed_content);
                }
                q = q + 1;
            }
            let ghost mid = *self;
            proof {
                assert(world_coords@.take(world_coords@.len() as int) =~= world_coords@);
                assert(before.landed_block(i as int, block, mid));
            }
            self.new_block(i);
        } else {
            // no room to land
            self.players[i].block_or_timer = BlockOrTimer::TimerPending;
            proof {
                assert(self.players@[i as int].wf());
            }
        }
        true
    }

    /// The players whose blocks fall in a step of the given speed: those with falling
    /// drills and the others, each in the order of the players.
    fn collect_movers(&self, fast: bool) -> (r: (Vec<usize>, Vec<usize>))
        requires
            self.wf(),
        ensures
            increasing(r.0@),
            increasing(r.1@),
            r.0@.len() + r.1@.len() <= self.players@.len(),
            forall|k: int| 0 <= k < r.0@.len() ==> #[trigger] r.0@[k] < self.players@.len(),
            forall|k: int| 0 <= k < r.1@.len() ==> #[trigger] r.1@[k] < self.players@.len(),
            forall|k: int| 0 <= k < r.0@.len() ==> is_mover(self.players@[#[trigger] r.0@[k] as int], fast)
                && falling_drill(self.players@[r.0@[k] as int]),
            forall|k: int| 0 <= k < r.1@.len() ==> is_mover(self.players@[#[trigger] r.1@[k] as int], fast)
                && !falling_drill(self.players@[r.1@[k] as int]),
            forall|j: int| 0 <= j < self.players@.len() && is_mover(#[trigger] self.players@[j], fast) ==>
                r.0@.contains(j as usize) || r.1@.contains(j as usize),
            r.0@.len() + r.1@.len() > 0 ==> exists|j: int| 0 <= j < self.players@.len() && is_mover(#[trigger] self.players@[j], fast),
    {
        let n = self.players.len();
        let mut drill_indexes: Vec<usize> = Vec::new();
        let mut other_indexes: Vec<usize> = Vec::new();
        let mut i: usize = 0;
        while i < n
            invariant
                i <= n == self.players@.len(),
                drill_indexes@.len() + other_indexes@.len() <= i,
                forall|k: int| 0 <= k < drill_indexes@.len() ==> #[trigger] drill_indexes@[k] < i,
                forall|k: int| 0 <= k < other_indexes@.len() ==> #[trigger] other_indexes@[k] < i,
                increasing(drill_indexes@),
                increasing(other_indexes@),
                forall|k: int| 0 <= k < drill_indexes@.len() ==> is_mover(self.players@[#[trigger] drill_indexes@[k] as int], fast)
                    && falling_drill(self.players@[drill_indexes@[k] as int]),
                forall|k: int| 0 <= k < other_indexes@.len() ==> is_mover(self.players@[#[trigger] other_indexes@[k] as int], fast)
                    && !falling_drill(self.players@[other_indexes@[k] as int]),
                forall|j: int| 0 <= j < i && is_mover(#[trigger] self.players@[j], fast) ==>
                    drill_indexes@.contains(j as usize) || other_indexes@.contains(j as usize),
                drill_indexes@.len() + other_indexes@.len() > 0 ==> exists|j: int| 0 <= j < n && is_mover(#[trigger] self.players@[j], fast),
            decreases n - i,
        {
            let ghost drill_before = drill_indexes@;
            let ghost other_before = other_indexes@;
            if self.players[i].fast_down == fast {
                if let BlockOrTimer::Block(b) = &self.players[i].block_or_timer {
                    if b.square_content.is_drill() {
                        drill_indexes.push(i);
                        proof {
                            assert(drill_indexes@[drill_indexes@.len() - 1] == i);
                            assert forall|a: int, c: int| 0 <= a < c < drill_indexes@.len() implies drill_indexes@[a] < drill_indexes@[c] by {
                                if c < drill_before.len() {
                                    assert(drill_before[a] < drill_before[c]);
                                } else {
                                    assert(drill_before[a] < i);
                                }
                            }
                        }
                    } else {
                        other_indexes.push(i);
                        proof {
                            assert(other_indexes@[other_indexes@.len() - 1] == i);
                            assert forall|a: int, c: int| 0 <= a < c < other_indexes@.len() implies other_indexes@[a] < other_indexes@[c] by {
                                if c < other_before.len() {
                                    assert(other_before[a] < other_before[c]);
                                } else {
                                    assert(other_before[a] < i);
                                }
                            }
                        }
                    }
                    proof {
                        assert(is_mover(self.players@[i as int], fast));
                    }
                }
            }
            proof {
                assert forall|j: int| 0 <= j < i + 1 && is_mover(#[trigger] self.players@[j], fast) implies
                    drill_indexes@.contains(j as usize) || other_indexes@.contains(j as usize) by {
                    if j < i {
                        if drill_before.contains(j as usize) {
                            let w = choose|w: int| 0 <= w < drill_before.len() && #[trigger] drill_before[w] == j as usize;
                            assert(drill_indexes@[w] == j as usize);
                        } else {
                            let w = choose|w: int| 0 <= w < other_before.len() && #[trigger] other_before[w] == j as usize;
                            assert(other_indexes@[w] == j as usize);
                        }
                    }
                }
            }
            i = i + 1;
        }
        (drill_indexes, other_indexes)
    }

    /// The rounds of `move_blocks_down`: the blocks of the players in `drill_indexes` and
    /// `other_indexes` try to move one step down, others first, and those that did not move
    /// try again until a round moves nothing. Returns the players whose blocks never moved
    /// (in the same two lists) and whether any block moved.
    #[verifier::spinoff_prover]
    #[verifier::rlimit(50)]
    fn move_rounds(&mut self, fast: bool, drill_indexes: Vec<usize>, other_indexes: Vec<usize>) -> (r: (Vec<usize>, Vec<usize>, bool))
        requires
            old(self).wf(),
            rounds_inv(*old(self), fast, seq![*old(self)], Seq::<usize>::empty(), drill_indexes@, other_indexes@, false),
            drill_indexes@.len() + other_indexes@.len() <= old(self).players@.len(),
            forall|k: int| 0 <= k < drill_indexes@.len() ==> #[trigger] drill_indexes@[k] < old(self).players@.len(),
            forall|k: int| 0 <= k < other_indexes@.len() ==> #[trigger] other_indexes@[k] < old(self).players@.len(),
            forall|k: int| 0 <= k < drill_indexes@.len() ==> is_mover(old(self).players@[#[trigger] drill_indexes@[k] as int], fast),
            forall|k: int| 0 <= k < other_indexes@.len() ==> is_mover(old(self).players@[#[trigger] other_indexes@[k] as int], fast),
        ensures
            final(self).wf(),
            final(self).mode == old(self).mode,
            final(self).flashing_points == old(self).flashing_points,
            final(self).score == old(self).score,
            final(self).bomb_id_counter == old(self).bomb_id_counter,
            final(self).block_factory == old(self).block_factory,
            final(self).players@.len() == old(self).players@.len(),
            forall|j: int| 0 <= j < old(self).players@.len() ==> same_identity(#[trigger] final(self).players@[j], old(self).players@[j]),
            forall|k: int| 0 <= k < r.0@.len() ==> #[trigger] r.0@[k] < old(self).players@.len(),
            forall|k: int| 0 <= k < r.1@.len() ==> #[trigger] r.1@[k] < old(self).players@.len(),
            forall|k: int| 0 <= k < r.0@.len() ==> is_mover(old(self).players@[#[trigger] r.0@[k] as int], fast),
            forall|k: int| 0 <= k < r.1@.len() ==> is_mover(old(self).players@[#[trigger] r.1@[k] as int], fast),
            drill_indexes@.len() + other_indexes@.len() == 0 ==> r.0@.len() + r.1@.len() == 0 && !r.2,
            !r.2 ==> r.0@ == drill_indexes@ && r.1@ == other_indexes@
                && final(self).players == old(self).players && final(self).landed_rows == old(self).landed_rows,
            rows_shrunk(old(self).rows(), final(self).rows()),
            forall|j: int| 0 <= j < old(self).players@.len() && #[trigger] final(self).players@[j].fast_down ==> old(self).players@[j].fast_down,
            forall|a: int| 0 <= a < r.0@.len() ==> !final(self).move_condition(#[trigger] r.0@[a] as int, 0, 1, true),
            forall|a: int| 0 <= a < r.1@.len() ==> !final(self).move_condition(#[trigger] r.1@[a] as int, 0, 1, true),
            exists|gs: Seq<Game>, ga: Seq<usize>| #[trigger] rounds_inv(*old(self), fast, gs, ga, r.0@, r.1@, true)
                && gs.last() == *final(self) && r.2 == (exists|k: int| 0 <= k < ga.len() && #[trigger] succeeded(gs, ga, k)),
    {
        let mut drill_indexes = drill_indexes;
        let mut other_indexes = other_indexes;
        let n = self.players.len();
        let ghost drill0 = drill_indexes@;
        let ghost other0 = other_indexes@;
        let ghost nothing_to_do = drill_indexes@.len() + other_indexes@.len() == 0;
        let ghost mut gstates: Seq<Game> = seq![*self];
        let ghost mut gatt: Seq<usize> = Seq::empty();
        let ghost mut started = false;
        let mut need_render = false;
        loop
            invariant
                self.wf(),
                self.mode == old(self).mode,
                self.flashing_points == old(self).flashing_points,
                self.score == old(self).score,
                self.bomb_id_counter == old(self).bomb_id_counter,
                self.block_factory == old(self).block_factory,
                self.players@.len() == n == old(self).players@.len(),
                forall|j: int| 0 <= j < n ==> same_identity(#[trigger] self.players@[j], old(self).players@[j]),
                drill_indexes@.len() + other_indexes@.len() <= n,
                forall|k: int| 0 <= k < drill_indexes@.len() ==> #[trigger] drill_indexes@[k] < n,
                forall|k: int| 0 <= k < other_indexes@.len() ==> #[trigger] other_indexes@[k] < n,
                forall|k: int| 0 <= k < drill_indexes@.len() ==> is_mover(old(self).players@[#[trigger] drill_indexes@[k] as int], fast),
                forall|k: int| 0 <= k < other_indexes@.len() ==> is_mover(old(self).players@[#[trigger] other_indexes@[k] as int], fast),
                nothing_to_do ==> drill_indexes@.len() + other_indexes@.len() == 0 && !need_render,
                !need_render ==> drill_indexes@ == drill0 && other_indexes@ == other0
                    && self.players == old(self).players && self.landed_rows == old(self).landed_rows,
                rows_shrunk(old(self).rows(), self.rows()),
                forall|j: int| 0 <= j < n && #[trigger] self.players@[j].fast_down ==> old(self).players@[j].fast_down,
                drill0.len() + other0.len() <= n,
                drill_indexes@.len() <= drill0.len(),
                other_indexes@.len() <= other0.len(),
                rounds_inv(*old(self), fast, gstates, gatt, drill_indexes@, other_indexes@, started),
                gstates.last() == *self,
                need_render == exists|k: int| 0 <= k < gatt.len() && #[trigger] succeeded(gstates, gatt, k),
            ensures
                started,
                forall|a: int| 0 <= a < drill_indexes@.len() ==> !self.move_condition(#[trigger] drill_indexes@[a] as int, 0, 1, true),
                forall|a: int| 0 <= a < other_indexes@.len() ==> !self.move_condition(#[trigger] other_indexes@[a] as int, 0, 1, true),
            decreases drill_indexes@.len() + other_indexes@.len(),
        {
            let old_total = drill_indexes.len() + other_indexes.len();
            let ghost before = *self;
            let ghost drill_before = drill_indexes@;
            let ghost other_before = other_indexes@;
            // Drills move last: other blocks get a chance to go in front of a drill and get
            // drilled. Blocks may also follow to where another block came from.
            other_indexes = self.keep_unmoved(other_indexes);
            let ghost middle = *self;
            drill_indexes = self.keep_unmoved(drill_indexes);
            proof {
                assert forall|k: int| 0 <= k < drill_indexes@.len() implies is_mover(old(self).players@[#[trigger] drill_indexes@[k] as int], fast) by {
                    assert(drill_before.contains(drill_indexes@[k]));
                    let w = choose|w: int| 0 <= w < drill_before.len() && drill_before[w] == drill_indexes@[k];
                    assert(is_mover(old(self).players@[drill_before[w] as int], fast));
                }
                assert forall|k: int| 0 <= k < other_indexes@.len() implies is_mover(old(self).players@[#[trigger] other_indexes@[k] as int], fast) by {
                    assert(other_before.contains(other_indexes@[k]));
                    let w = choose|w: int| 0 <= w < other_before.len() && other_before[w] == other_indexes@[k];
                    assert(is_mover(old(self).players@[other_before[w] as int], fast));
                }
                lemma_rows_shrunk_trans(old(self).rows(), before.rows(), middle.rows());
                lemma_rows_shrunk_trans(old(self).rows(), middle.rows(), self.rows());
                assert forall|j: int| 0 <= j < n && #[trigger] self.players@[j].fast_down implies old(self).players@[j].fast_down by {
                    assert(middle.players@[j].fast_down);
                    assert(before.players@[j].fast_down);
                }
                let st1 = choose|st: Seq<Game>| #[trigger] step_down_trace(st, other_before) && st[0] == before
                    && st.last() == middle && other_indexes@ == kept_in_trace(st, other_before, other_before.len() as int);
                let st2 = choose|st: Seq<Game>| #[trigger] step_down_trace(st, drill_before) && st[0] == middle
                    && st.last() == *self && drill_indexes@ == kept_in_trace(st, drill_before, drill_before.len() as int);
                lemma_rounds_step(*old(self), fast, gstates, gatt, drill_before, other_before, started, st1, st2,
                    drill_indexes@, other_indexes@);
                gstates = gstates + (st1 + st2.drop_first()).drop_first();
                gatt = gatt + (other_before + drill_before);
                started = true;
            }
            if drill_indexes.len() + other_indexes.len() == old_total {
                break;
            }
            need_render = true;
        }
        proof {
            assert(rounds_inv(*old(self), fast, gstates, gatt, drill_indexes@, other_indexes@, true)
                && gstates.last() == *self && need_render == (exists|k: int| 0 <= k < gatt.len() && #[trigger] succeeded(gstates, gatt, k)));
        }
        let r = (drill_indexes, other_indexes, need_render);
        proof {
            assert(r.0@ == drill_indexes@ && r.1@ == other_indexes@ && r.2 == need_render);
        }
        r
    }

    /// Moves down the falling blocks of the players whose "fast down" flag equals `fast`,
    /// each at most one step (drills last, so that other blocks can get in front of a drill
    /// and be drilled, and repeatedly so that blocks can follow a block that moved). Blocks
    /// that cannot move: with `fast`, the flag is cleared; otherwise the block lands if it
    /// is inside the playing area (the player gets a new block), or else the player gets a
    /// pending timer. Returns whether anything changed that needs rendering.
    #[verifier::spinoff_prover]
    #[verifier::rlimit(100)]
    pub fn move_blocks_down(&mut self, fast: bool) -> (r: bool)
        requires
            old(self).wf(),
        ensures
            game_step(*old(self), *final(self)),
            final(self).wf(),
            final(self).mode == old(self).mode,
            final(self).flashing_points == old(self).flashing_points,
            final(self).score == old(self).score,
            final(self).bomb_id_counter == old(self).bomb_id_counter,
            final(self).block_factory == old(self).block_factory,
            final(self).players@.len() == old(self).players@.len(),
            forall|j: int| 0 <= j < old(self).players@.len() ==> same_identity(#[trigger] final(self).players@[j], old(self).players@[j]),
            !(exists|j: int| 0 <= j < old(self).players@.len() && is_mover(#[trigger] old(self).players@[j], fast))
                ==> !r && final(self).players == old(self).players && final(self).landed_rows == old(self).landed_rows,
            !fast && (exists|j: int| 0 <= j < old(self).players@.len() && is_mover(#[trigger] old(self).players@[j], fast)) ==> r,
            fast ==> rows_shrunk(old(self).rows(), final(self).rows()),
            fast && !r ==> final(self).landed_rows == old(self).landed_rows && forall|j: int| 0 <= j < old(self).players@.len() ==>
                #[trigger] final(self).players@[j] == (if is_mover(old(self).players@[j], fast) {
                    Player { fast_down: false, ..old(self).players@[j] }
                } else {
                    old(self).players@[j]
                }),
            forall|j: int| 0 <= j < old(self).players@.len() && #[trigger] final(self).players@[j].fast_down ==> old(self).players@[j].fast_down,
            final(self).height() == old(self).height(),
            exists|states: Seq<Game>, attempts: Seq<usize>, remaining: Seq<usize>, fstates: Seq<Game>|
                #[trigger] old(self).moved_down_result(fast, states, attempts, remaining, fstates[0])
                && fstates[0].finished_result(fast, remaining, fstates, *final(self))
                && r == ((exists|k: int| 0 <= k < attempts.len() && #[trigger] succeeded(states, attempts, k))
                    || (!fast && exists|q: int| 0 <= q < remaining.len()
                        && (#[trigger] fstates[q]).players@[remaining[q] as int].block_or_timer is Block)),
    {
        let n = self.players.len();
        let (drill_indexes, other_indexes) = self.collect_movers(fast);
        let ghost drill0 = drill_indexes@;
        let ghost other0 = other_indexes@;
        let ghost nothing_to_do = drill_indexes@.len() + other_indexes@.len() == 0;
        proof {
            reveal(rounds_inv);
            assert(rounds_inv(*self, fast, seq![*self], Seq::<usize>::empty(), drill_indexes@, other_indexes@, false));
        }
        let (drill_indexes, other_indexes, need_render) = self.move_rounds(fast, drill_indexes, other_indexes);
        let ghost after_moves = *self;
        let ghost (gstates, gatt): (Seq<Game>, Seq<usize>) = choose|gs: Seq<Game>, ga: Seq<usize>|
            #[trigger] rounds_inv(*old(self), fast, gs, ga, drill_indexes@, other_indexes@, true) && gs.last() == after_moves
            && need_render == (exists|k: int| 0 <= k < ga.len() && #[trigger] succeeded(gs, ga, k));
        proof {
            lemma_moved_down_result(*old(self), fast, gstates, gatt, drill_indexes@, other_indexes@, after_moves);
        }
        let mut remaining: Vec<usize> = drill_indexes;
        let mut k: usize = 0;
        while k < other_indexes.len()
            invariant
                k <= other_indexes@.len(),
                forall|q: int| 0 <= q < other_indexes@.len() ==> #[trigger] other_indexes@[q] < n,
                forall|q: int| 0 <= q < remaining@.len() ==> #[trigger] remaining@[q] < n,
                forall|q: int| 0 <= q < other_indexes@.len() ==> is_mover(old(self).players@[#[trigger] other_indexes@[q] as int], fast),
                forall|q: int| 0 <= q < remaining@.len() ==> is_mover(old(self).players@[#[trigger] remaining@[q] as int], fast),
                remaining@ == drill_indexes@ + other_indexes@.take(k as int),
                nothing_to_do ==> remaining@.len() == 0 && other_indexes@.len() == 0,
            decreases other_indexes@.len() - k,
        {
            remaining.push(other_indexes[k]);
            proof {
                assert(other_indexes@.take(k + 1) =~= other_indexes@.take(k as int).push(other_indexes@[k as int]));
            }
            k = k + 1;
        }
        proof {
            assert(other_indexes@.take(other_indexes@.len() as int) =~= other_indexes@);
            if !need_render {
                assert forall|j: int| 0 <= j < n && is_mover(#[trigger] old(self).players@[j], fast) implies remaining@.contains(j as usize) by {
                    if drill0.contains(j as usize) {
                        let w = choose|w: int| 0 <= w < drill0.len() && drill0[w] == j as usize;
                        assert(remaining@[w] == j as usize);
                    } else {
                        assert(other0.contains(j as usize));
                        let w = choose|w: int| 0 <= w < other0.len() && other0[w] == j as usize;
                        assert(remaining@[drill0.len() + w] == j as usize);
                    }
                }
            }
        }
        let ghost no_moves = !need_render;
        let finished_any = self.finish_moves(&remaining, fast, Ghost(*old(self)), Ghost(no_moves));
        proof {
            let fstates = choose|fs: Seq<Game>| #[trigger] after_moves.finished_result(fast, remaining@, fs, *self)
                && finished_any == (!fast && exists|q: int| 0 <= q < remaining@.len()
                    && (#[trigger] fs[q]).players@[remaining@[q] as int].block_or_timer is Block);
            if nothing_to_do {
                assert(*self == fstates[0]);
            }
            if !fast && exists|j: int| 0 <= j < n && is_mover(#[trigger] old(self).players@[j], fast) {
                let j = choose|j: int| 0 <= j < n && is_mover(#[trigger] old(self).players@[j], fast);
                if no_moves {
                    assert(remaining@.contains(j as usize));
                }
            }
            assert(old(self).moved_down_result(fast, gstates, gatt, remaining@, fstates[0]));
            assert(fstates[0].finished_result(fast, remaining@, fstates, *self));
        }
        need_render || finished_any
    }

    /// The end of `move_blocks_down`: finishes the players in `remaining`, whose blocks did
    /// not move, one after the other (see `finish_result`); returns whether any of them had
    /// a falling block (never with `fast`). `g0` is the game before the step, and
    /// `no_moves` tells that no block moved in it.
    #[verifier::spinoff_prover]
    #[verifier::rlimit(50)]
    fn finish_moves(&mut self, remaining: &Vec<usize>, fast: bool, Ghost(g0): Ghost<Game>, Ghost(no_moves): Ghost<bool>) -> (r: bool)
        requires
            old(self).wf(),
            old(self).mode == g0.mode,
            old(self).flashing_points == g0.flashing_points,
            old(self).score == g0.score,
            old(self).bomb_id_counter == g0.bomb_id_counter,
            old(self).block_factory == g0.block_factory,
            old(self).players@.len() == g0.players@.len(),
            forall|j: int| 0 <= j < g0.players@.len() ==> same_identity(#[trigger] old(self).players@[j], g0.players@[j]),
            forall|q: int| 0 <= q < remaining@.len() ==> #[trigger] remaining@[q] < g0.players@.len(),
            forall|q: int| 0 <= q < remaining@.len() ==> is_mover(g0.players@[#[trigger] remaining@[q] as int], fast),
            no_moves ==> forall|j: int| 0 <= j < g0.players@.len() && is_mover(#[trigger] g0.players@[j], fast) ==> remaining@.contains(j as usize),
            no_moves ==> old(self).players == g0.players && old(self).landed_rows == g0.landed_rows,
            fast ==> rows_shrunk(g0.rows(), old(self).rows()),
            forall|j: int| 0 <= j < g0.players@.len() && #[trigger] old(self).players@[j].fast_down ==> g0.players@[j].fast_down,
            old(self).height() == g0.height(),
        ensures
            final(self).wf(),
            final(self).mode == g0.mode,
            final(self).flashing_points == g0.flashing_points,
            final(self).score == g0.score,
            final(self).bomb_id_counter == g0.bomb_id_counter,
            final(self).block_factory == g0.block_factory,
            final(self).players@.len() == g0.players@.len(),
            forall|j: int| 0 <= j < g0.players@.len() ==> same_identity(#[trigger] final(self).players@[j], g0.players@[j]),
            !fast && no_moves && remaining@.len() > 0 ==> r,
            fast ==> rows_shrunk(g0.rows(), final(self).rows()),
            fast && no_moves ==> final(self).landed_rows == g0.landed_rows && forall|j: int| 0 <= j < g0.players@.len() ==>
                #[trigger] final(self).players@[j] == (if is_mover(g0.players@[j], fast) {
                    Player { fast_down: false, ..g0.players@[j] }
                } else {
                    g0.players@[j]
                }),
            forall|j: int| 0 <= j < g0.players@.len() && #[trigger] final(self).players@[j].fast_down ==> g0.players@[j].fast_down,
            final(self).height() == g0.height(),
            exists|fstates: Seq<Game>| #[trigger] old(self).finished_result(fast, remaining@, fstates, *final(self))
                && r == (!fast && exists|q: int| 0 <= q < remaining@.len()
                    && (#[trigger] fstates[q]).players@[remaining@[q] as int].block_or_timer is Block),
    {
        let n = self.players.len();
        let mut need = false;
        let ghost mut fstates: Seq<Game> = seq![*self];
        let mut k: usize = 0;
        while k < remaining.len()
            invariant
                k <= remaining@.len(),
                self.wf(),
                self.mode == g0.mode,
                self.flashing_points == g0.flashing_points,
                self.score == g0.score,
                self.bomb_id_counter == g0.bomb_id_counter,
                self.block_factory == g0.block_factory,
                self.players@.len() == n == g0.players@.len(),
                forall|j: int| 0 <= j < n ==> same_identity(#[trigger] self.players@[j], g0.players@[j]),
                forall|q: int| 0 <= q < remaining@.len() ==> #[trigger] remaining@[q] < n,
                forall|q: int| 0 <= q < remaining@.len() ==> is_mover(g0.players@[#[trigger] remaining@[q] as int], fast),
                no_moves ==> forall|j: int| 0 <= j < n && is_mover(#[trigger] g0.players@[j], fast) ==> remaining@.contains(j as usize),
                !fast && no_moves && !need ==> k == 0 && self.players == g0.players,
                !fast && no_moves && k > 0 ==> need,
                fast ==> !need,
                fast ==> rows_shrunk(g0.rows(), self.rows()),
                fast && no_moves ==> self.landed_rows == g0.landed_rows && forall|j: int| 0 <= j < n ==>
                    #[trigger] self.players@[j] == (if is_mover(g0.players@[j], fast) && remaining@.take(k as int).contains(j as usize) {
                        Player { fast_down: false, ..g0.players@[j] }
                    } else {
                        g0.players@[j]
                    }),
                forall|j: int| 0 <= j < n && #[trigger] self.players@[j].fast_down ==> g0.players@[j].fast_down,
                self.height() == g0.height(),
                fstates.len() == k + 1,
                fstates[0] == *old(self),
                fstates.last() == *self,
                forall|q: int| 0 <= q < k ==> #[trigger] fstates[q].finish_result(remaining@[q] as int, fast, fstates[q + 1]),
                need == (!fast && exists|q: int| 0 <= q < k
                    && (#[trigger] fstates[q]).players@[remaining@[q] as int].block_or_timer is Block),
            decreases remaining@.len() - k,
        {
            let i = remaining[k];
            let ghost before = *self;
            let ghost fstates_before = fstates;
            let ghost need_before = need;
            proof {
                assert(self.players@[i as int].wf());
                assert(is_mover(g0.players@[i as int], fast));
                assert(remaining@.take(k + 1) =~= remaining@.take(k as int).push(i));
            }
            if self.finish_move(i, fast) {
                need = true;
            }
            proof {
                fstates = fstates.push(*self);
                assert(fstates[k as int] == before);
                assert forall|q: int| 0 <= q < k + 1 implies #[trigger] fstates[q].finish_result(remaining@[q] as int, fast, fstates[q + 1]) by {
                    if q < k {
                        assert(fstates_before[q].finish_result(remaining@[q] as int, fast, fstates_before[q + 1]));
                    }
                }
                if !fast && no_moves && !need_before {
                    assert(before.players@[i as int] == g0.players@[i as int]);
                    assert(before.players@[i as int].block_or_timer is Block);
                }
                if !fast && (exists|q: int| 0 <= q < k && (#[trigger] fstates_before[q]).players@[remaining@[q] as int].block_or_timer is Block) {
                    let q = choose|q: int| 0 <= q < k && (#[trigger] fstates_before[q]).players@[remaining@[q] as int].block_or_timer is Block;
                    assert(fstates[q] == fstates_before[q]);
                }
                if !fast && (exists|q: int| 0 <= q < k + 1 && (#[trigger] fstates[q]).players@[remaining@[q] as int].block_or_timer is Block) {
                    let q = choose|q: int| 0 <= q < k + 1 && (#[trigger] fstates[q]).players@[remaining@[q] as int].block_or_timer is Block;
                    if q < k {
                        assert(fstates_before[q] == fstates[q]);
                    }
                }
                assert forall|j: int| 0 <= j < n && #[trigger] self.players@[j].fast_down implies g0.players@[j].fast_down by {
                    assert(before.players@[j].fast_down);
                }
                assert forall|j: int| 0 <= j < n implies same_identity(#[trigger] self.players@[j], g0.players@[j]) by {
                    assert(same_identity(before.players@[j], g0.players@[j]));
                }
                if fast {
                    assert(rows_shrunk(g0.rows(), before.rows()));
                    assert(self.rows() == before.rows());
                }
                if fast && no_moves {
                    assert forall|j: int| 0 <= j < n implies #[trigger] self.players@[j] == (if is_mover(g0.players@[j], fast)
                        && remaining@.take(k + 1).contains(j as usize) {
                        Player { fast_down: false, ..g0.players@[j] }
                    } else {
                        g0.players@[j]
                    }) by {
                        if j == i {
                            assert(remaining@.take(k + 1)[k as int] == i);
                        } else {
                            assert(before.players@[j] == self.players@[j]);
                            if remaining@.take(k + 1).contains(j as usize) {
                                let w = choose|w: int| 0 <= w < remaining@.take(k + 1).len() && #[trigger] remaining@.take(k + 1)[w] == j as usize;
                                assert(remaining@.take(k as int)[w] == j as usize);
                            }
                            if remaining@.take(k as int).contains(j as usize) {
                                let w = choose|w: int| 0 <= w < remaining@.take(k as int).len() && #[trigger] remaining@.take(k as int)[w] == j as usize;
                                assert(remaining@.take(k + 1)[w] == j as usize);
                            }
                        }
                    }
                }
            }
            k = k + 1;
        }
        proof {
            if fast && no_moves {
                assert(remaining@.take(remaining@.len() as int) =~= remaining@);
                assert forall|j: int| 0 <= j < n implies #[trigger] self.players@[j] == (if is_mover(g0.players@[j], fast) {
                    Player { fast_down: false, ..g0.players@[j] }
                } else {
                    g0.players@[j]
                }) by {
                    if is_mover(g0.players@[j], fast) {
                        assert(remaining@.contains(j as usize));
                    }
                }
            }
            assert(old(self).finished_result(fast, remaining@, fstates, *self));
        }
        need
    }

    /// The index of the first player with the client id.
    fn find_player(&self, client_id: u64) -> (r: Option<usize>)
        ensures
            match r {
                Some(i) => i == first_player_with(self.players@, client_id),
                None => first_player_with(self.players@, client_id) == -1,
            },
    {
        let mut i: usize = 0;
        while i < self.players.len()
            invariant
                i <= self.players@.len(),
                first_player_with(self.players@.take(i as int), client_id) == -1,
            decreases self.players@.len() - i,
        {
            proof {
                assert(self.players@.take(i + 1).drop_last() =~= self.players@.take(i as int));
            }
            if self.players[i].client_id == client_id {
                proof {
                    assert(first_player_with(self.players@.take(i + 1), client_id) == i);
                    lemma_first_player_prefix(self.players@, client_id, i + 1);
                }
                return Some(i);
            }
            i = i + 1;
        }
        proof {
            assert(self.players@.take(self.players@.len() as int) =~= self.players@);
        }
        None
    }

    /// Handles a key pressed by a player: down (S) makes the block fall fast, left (A) and
    /// right (D) move it, up (W) turns it, F turns the view of a single-player ring game and
    /// H puts the block into the hold. Returns whether something changed that needs
    /// rendering.
    pub fn handle_key_press(&mut self, client_id: u64, client_prefers_rotating_counter_clockwise: bool, key: KeyPress) -> (r: bool)
        requires
            old(self).wf(),
            first_player_with(old(self).players@, client_id) >= 0,
        ensures
            game_step(*old(self), *final(self)),
            final(self).wf(),
            final(self).mode == old(self).mode,
            final(self).flashing_points == old(self).flashing_points,
            final(self).score == old(self).score,
            final(self).bomb_id_counter == old(self).bomb_id_counter,
            final(self).block_factory == old(self).block_factory,
            final(self).players@.len() == old(self).players@.len(),
            ({
                let i = first_player_with(old(self).players@, client_id);
                &&& r == match key {
                    KeyPress::Left | KeyPress::Character('A') | KeyPress::Character('a') => old(self).move_condition(i, -1, 0, false),
                    KeyPress::Right | KeyPress::Character('D') | KeyPress::Character('d') => old(self).move_condition(i, 1, 0, false),
                    KeyPress::Up | KeyPress::Character('W') | KeyPress::Character('w') => old(self).rotate_condition(i, client_prefers_rotating_counter_clockwise),
                    KeyPress::Character('F') | KeyPress::Character('f') => old(self).flip_condition(),
                    KeyPress::Character('H') | KeyPress::Character('h') => old(self).hold_condition(i),
                    _ => false,
                }
                &&& final(self).players@[i].fast_down == match key {
                    KeyPress::Down | KeyPress::Character('S') | KeyPress::Character('s') => true,
                    _ => false,
                }
                &&& final(self).landed_rows == old(self).landed_rows
                &&& forall|j: int| 0 <= j < old(self).players@.len() && j != i ==> #[trigger] final(self).players@[j] == old(self).players@[j]
                &&& !r ==> final(self).players@[i] == (Player { fast_down: final(self).players@[i].fast_down, ..old(self).players@[i] })
                &&& r ==> match key {
                    KeyPress::Left | KeyPress::Character('A') | KeyPress::Character('a') =>
                        block_moved_sideways(old(self).players@[i], final(self).players@[i], -1)
                        && same_except_block(final(self).players@[i], Player { fast_down: false, ..old(self).players@[i] }),
                    KeyPress::Right | KeyPress::Character('D') | KeyPress::Character('d') =>
                        block_moved_sideways(old(self).players@[i], final(self).players@[i], 1)
                        && same_except_block(final(self).players@[i], Player { fast_down: false, ..old(self).players@[i] }),
                    KeyPress::Up | KeyPress::Character('W') | KeyPress::Character('w') =>
                        same_except_block(final(self).players@[i], Player { fast_down: false, ..old(self).players@[i] })
                        && (old(self).players@[i].block_or_timer matches BlockOrTimer::Block(b)
                        && final(self).players@[i].block_or_timer matches BlockOrTimer::Block(nb)
                        && is_rotated(b, nb, client_prefers_rotating_counter_clockwise)),
                    KeyPress::Character('F') | KeyPress::Character('f') =>
                        final(self).players@[0].down_direction == ((-old(self).players@[0].down_direction.0) as i16,
                            (-old(self).players@[0].down_direction.1) as i16)
                        && final(self).players@[0].block_or_timer == old(self).players@[0].block_or_timer,
                    KeyPress::Character('H') | KeyPress::Character('h') =>
                        old(self).players@[i].block_or_timer matches BlockOrTimer::Block(b)
                        && final(self).players@[i].block_in_hold matches Some(h)
                        && h.has_been_in_hold
                        && h.relative_coords == b.relative_coords
                        && h.square_content == b.square_content,
                    _ => true,
                }
            }),
    {
        let ghost start = *self;
        let found = self.find_player(client_id);
        let player_idx = match found {
            Some(i) => i,
            None => 0,
        };
        proof {
            lemma_first_player_with(self.players@, client_id);
            assert(self.players@[player_idx as int].wf());
        }
        let need_render = match key {
            KeyPress::Down | KeyPress::Character('S') | KeyPress::Character('s') => {
                self.players[player_idx].fast_down = true;
                proof {
                    assert(self.players@[player_idx as int].wf());
                }
                return false;
            },
            KeyPress::Left | KeyPress::Character('A') | KeyPress::Character('a') => self.move_if_possible(player_idx, -1, 0, false),
            KeyPress::Right | KeyPress::Character('D') | KeyPress::Character('d') => self.move_if_possible(player_idx, 1, 0, false),
            KeyPress::Up | KeyPress::Character('W') | KeyPress::Character('w') => self.rotate_if_possible(player_idx, client_prefers_rotating_counter_clockwise),
            KeyPress::Character('F') | KeyPress::Character('f') => self.flip_view(),
            KeyPress::Character('H') | KeyPress::Character('h') => self.hold_block(player_idx),
            _ => false,
        };
        proof {
            assert(self.players@[player_idx as int].wf());
        }
        self.players[player_idx].fast_down = false;
        proof {
            assert(self.players@[player_idx as int].wf());
        }
        need_render
    }

    /// Starts the waiting counters (30 seconds) of the players whose counters were pending.
    /// Returns their client ids, or `None` when everyone is waiting, i.e. the game is over.
    pub fn start_pending_please_wait_counters(&mut self) -> (r: Option<Vec<u64>>)
        requires
            old(self).wf(),
        ensures
            game_step(*old(self), *final(self)),
            final(self).wf(),
            final(self).mode == old(self).mode,
            final(self).landed_rows == old(self).landed_rows,
            final(self).flashing_points == old(self).flashing_points,
            final(self).score == old(self).score,
            final(self).bomb_id_counter == old(self).bomb_id_counter,
            final(self).block_factory == old(self).block_factory,
            final(self).players@.len() == old(self).players@.len(),
            forall|j: int| 0 <= j < old(self).players@.len() ==> {
                let p = #[trigger] old(self).players@[j];
                let q = final(self).players@[j];
                &&& same_except_block(q, p)
                &&& q.block_or_timer == if p.block_or_timer is TimerPending { BlockOrTimer::Timer(30) } else { p.block_or_timer }
            },
            match r {
                None => forall|j: int| 0 <= j < old(self).players@.len() ==> #[trigger] final(self).players@[j].block_or_timer is Timer,
                Some(ids) => ids@ == pending_ids(old(self).players@)
                    && exists|j: int| 0 <= j < old(self).players@.len() && !(#[trigger] final(self).players@[j].block_or_timer is Timer),
            },
    {
        let mut client_ids: Vec<u64> = Vec::new();
        let n = self.players.len();
        let mut i: usize = 0;
        let mut everyone_waits = true;
        while i < n
            invariant
                i <= n == self.players@.len() == old(self).players@.len(),
                self.wf(),
                self.mode == old(self).mode,
                self.landed_rows == old(self).landed_rows,
                self.flashing_points == old(self).flashing_points,
                self.score == old(self).score,
                self.bomb_id_counter == old(self).bomb_id_counter,
                self.block_factory == old(self).block_factory,
                client_ids@ == pending_ids(old(self).players@.take(i as int)),
                forall|j: int| 0 <= j < i ==> {
                    let p = #[trigger] old(self).players@[j];
                    let q = self.players@[j];
                    &&& same_except_block(q, p)
                    &&& q.block_or_timer == if p.block_or_timer is TimerPending { BlockOrTimer::Timer(30) } else { p.block_or_timer }
                },
                forall|j: int| i <= j < n ==> #[trigger] self.players@[j] == old(self).players@[j],
                everyone_waits == forall|j: int| 0 <= j < i ==> #[trigger] self.players@[j].block_or_timer is Timer,
            decreases n - i,
        {
            proof {
                assert(old(self).players@.take(i + 1).drop_last() =~= old(self).players@.take(i as int));
                assert(old(self).players@.take(i + 1).last() == old(self).players@[i as int]);
                assert(self.players@[i as int].wf());
            }
            let ghost players_before = self.players@;
            if let BlockOrTimer::TimerPending = self.players[i].block_or_timer {
                self.players[i].block_or_timer = BlockOrTimer::Timer(30);
                client_ids.push(self.players[i].client_id);
            }
            let ghost waits_before = everyone_waits;
            if let BlockOrTimer::Timer(_) = self.players[i].block_or_timer {
            } else {
                everyone_waits = false;
            }
            proof {
                assert(self.players@[i as int].wf());
                assert forall|j: int| 0 <= j < i implies #[trigger] self.players@[j] == players_before[j] by {}
                if everyone_waits {
                    assert forall|j: int| 0 <= j < i + 1 implies #[trigger] self.players@[j].block_or_timer is Timer by {
                        if j < i {
                            assert(players_before[j].block_or_timer is Timer);
                        }
                    }
                } else if waits_before {
                    assert(!(self.players@[i as int].block_or_timer is Timer));
                } else {
                    let j = choose|j: int| 0 <= j < i && !(#[trigger] players_before[j].block_or_timer is Timer);
                    assert(!(self.players@[j].block_or_timer is Timer));
                }
            }
            i = i + 1;
        }
        proof {
            assert(old(self).players@.take(n as int) =~= old(self).players@);
        }
        if everyone_waits {
            None
        } else {
            Some(client_ids)
        }
    }

    /// Whether cell (x, y) of the array is in the area of player `i` that is emptied when
    /// the player's waiting time is over: the player's columns, or in ring mode the
    /// triangle above the center as the player sees it.
    pub open spec fn in_cleared_area(&self, i: int, x: int, y: int) -> bool {
        match self.mode {
            Mode::Traditional => {
                let w = width_per_player_spec(self.players@.len() as int);
                w * i <= x < w * (i + 1)
            },
            Mode::Bottle => 10 * i <= x < 10 * i + 9,
            Mode::Ring => {
                let q = ((x - 18) as i16, (y - 18) as i16);
                let p = crate::game_logic::player::world_to_player_spec(self.players@[i].down_direction, q);
                &&& self.valid_landed(q)
                &&& -18 <= p.1 <= 0
                &&& -p.1 >= p.0 >= p.1
            },
        }
    }

    fn in_cleared_area_exec(&self, i: usize, x: usize, y: usize) -> (r: bool)
        requires
            self.wf(),
            i < self.players@.len(),
            y < self.height(),
            x < self.width(),
        ensures
            r == self.in_cleared_area(i as int, x as int, y as int),
    {
        proof {
            self.lemma_wf_bounds();
            assert(self.players@[i as int].wf());
        }
        match self.mode {
            Mode::Traditional => {
                let w: usize = if self.players.len() >= 2 { 7 } else { 10 };
                w * i <= x && x < w * (i + 1)
            },
            Mode::Bottle => BOTTLE_OUTER_WIDTH * i <= x && x < BOTTLE_OUTER_WIDTH * i + BOTTLE_INNER_WIDTH,
            Mode::Ring => {
                let q = (x as i16 - 18, y as i16 - 18);
                let p = self.players[i].world_to_player(q);
                self.is_valid_landed_block_coords(q) && -18 <= p.1 && p.1 <= 0 && -p.1 >= p.0 && p.0 >= p.1
            },
        }
    }

    /// The landed squares with the area of player `i` emptied (see `in_cleared_area`).
    pub open spec fn cleared_rows(&self, i: int) -> Seq<Seq<Option<SquareContent>>> {
        Seq::new(self.rows().len(), |y: int| Seq::new(self.rows()[y].len(), |x: int|
            if self.in_cleared_area(i, x, y) { None } else { self.rows()[y][x] }))
    }

    /// Empties the area of player `i` (see `in_cleared_area`).
    fn clear_playing_area(&mut self, player_idx: usize)
        requires
            old(self).wf(),
            player_idx < old(self).players@.len(),
        ensures
            final(self).wf(),
            final(self).rows() == old(self).cleared_rows(player_idx as int),
            final(self).players == old(self).players,
            final(self).mode == old(self).mode,
            final(self).flashing_points == old(self).flashing_points,
            final(self).score == old(self).score,
            final(self).bomb_id_counter == old(self).bomb_id_counter,
            final(self).block_factory == old(self).block_factory,
    {
        proof {
            self.lemma_wf_bounds();
        }
        let ghost g0 = *self;
        let ghost target = Seq::new(g0.rows().len(), |y: int| Seq::new(g0.rows()[y].len(), |x: int|
            if g0.in_cleared_area(player_idx as int, x, y) { None } else { g0.rows()[y][x] }));
        let h = self.landed_rows.len();
        let mut y: usize = 0;
        while y < h
            invariant
                y <= h == self.height() == g0.height(),
                g0 == *old(self),
                g0.wf(),
                self.wf(),
                player_idx < self.players@.len(),
                self.players == g0.players,
                self.mode == g0.mode,
                self.flashing_points == g0.flashing_points,
                self.score == g0.score,
                self.bomb_id_counter == g0.bomb_id_counter,
                self.block_factory == g0.block_factory,
                target == Seq::new(g0.rows().len(), |y: int| Seq::new(g0.rows()[y].len(), |x: int|
                    if g0.in_cleared_area(player_idx as int, x, y) { None } else { g0.rows()[y][x] })),
                forall|yy: int| 0 <= yy < y ==> #[trigger] self.rows()[yy] == target[yy],
                forall|yy: int| y <= yy < h ==> #[trigger] self.rows()[yy] == g0.rows()[yy],
            decreases h - y,
        {
            proof {
                self.lemma_wf_bounds();
                g0.lemma_wf_bounds();
                assert(self.rows()[y as int] == self.landed_rows@[y as int]@);
            }
            let w = self.landed_rows[y].len();
            let mut row: Vec<Option<SquareContent>> = Vec::new();
            let mut x: usize = 0;
            while x < w
                invariant
                    x <= w == g0.rows()[y as int].len() == g0.width(),
                    y < h == g0.height(),
                    g0.wf(),
                    self.wf(),
                    player_idx < self.players@.len(),
                    self.players == g0.players,
                    self.mode == g0.mode,
                    self.height() == g0.height(),
                    self.rows()[y as int] == g0.rows()[y as int],
                    self.rows()[y as int] == self.landed_rows@[y as int]@,
                    self.landed_rows@.len() == h,
                    self.landed_rows@[y as int]@.len() == w,
                    target == Seq::new(g0.rows().len(), |y: int| Seq::new(g0.rows()[y].len(), |x: int|
                        if g0.in_cleared_area(player_idx as int, x, y) { None } else { g0.rows()[y][x] })),
                    row@ == target[y as int].take(x as int),
                decreases w - x,
            {
                if self.in_cleared_area_exec(player_idx, x, y) {
                    row.push(None);
                } else {
                    row.push(self.landed_rows[y][x]);
                }
                proof {
                    assert(self.in_cleared_area(player_idx as int, x as int, y as int) == g0.in_cleared_area(player_idx as int, x as int, y as int));
                    assert(row@ =~= target[y as int].take(x + 1));
                }
                x = x + 1;
            }
            proof {
                assert(row@ =~= target[y as int]);
            }
            let ghost before = self.rows();
            self.landed_rows.set(y, row);
            proof {
                assert forall|k: int| 0 <= k < self.landed_rows@.len() implies #[trigger] self.landed_rows@[k]@.len() == self.width() by {
                    assert(self.rows()[k] == self.landed_rows@[k]@);
                }
                assert forall|yy: int| 0 <= yy < y + 1 implies #[trigger] self.rows()[yy] == target[yy] by {
                    assert(self.rows()[yy] == self.landed_rows@[yy]@);
                    if yy < y {
                        assert(before[yy] == target[yy]);
                    }
                }
                assert forall|yy: int| y + 1 <= yy < h implies #[trigger] self.rows()[yy] == g0.rows()[yy] by {
                    assert(self.rows()[yy] == self.landed_rows@[yy]@);
                    assert(before[yy] == g0.rows()[yy]);
                }
            }
            y = y + 1;
        }
        proof {
            assert(self.rows() =~= target);
        }
    }

    /// `after` is this game after one second of the waiting counter of the player with the
    /// client id (see `tick_please_wait_counter`), which returned `r`.
    pub open spec fn tick_result(&self, client_id: u64, after: Game, r: bool) -> bool {
        let i = first_player_with(self.players@, client_id);
        &&& after.players@.len() == self.players@.len()
        &&& r == (i >= 0 && (self.players@[i].block_or_timer matches BlockOrTimer::Timer(n) && n > 1))
        &&& r ==> (self.players@[i].block_or_timer matches BlockOrTimer::Timer(n)
            && after.players@[i].block_or_timer == BlockOrTimer::Timer((n - 1) as u8)
            && same_except_block(after.players@[i], self.players@[i])
            && after.landed_rows == self.landed_rows)
        &&& (i >= 0 && self.players@[i].block_or_timer == BlockOrTimer::Timer(1)) ==> {
            &&& same_identity(after.players@[i], self.players@[i])
            &&& !(after.players@[i].block_or_timer is Timer)
            &&& after.rows() == self.cleared_rows(i)
            &&& exists|mid: Game| mid.rows() == self.cleared_rows(i) && mid.players == self.players
                && mid.mode == self.mode && mid.score == self.score && mid.block_factory == self.block_factory
                && #[trigger] mid.got_new_block(after.players@[i], i, false)
        }
        &&& !(i >= 0 && self.players@[i].block_or_timer is Timer) ==> after.players == self.players
            && after.landed_rows == self.landed_rows
        &&& forall|j: int| 0 <= j < self.players@.len() && j != i ==> #[trigger] after.players@[j] == self.players@[j]
    }

    /// One second of the waiting counter of the player with the client id has passed.
    /// When the counter is at 1, the player's area is emptied and the player gets a new
    /// block. Returns whether this should be called again in one second.
    pub fn tick_please_wait_counter(&mut self, client_id: u64) -> (r: bool)
        requires
            old(self).wf(),
            first_player_with(old(self).players@, client_id) >= 0 ==> old(self).players@[first_player_with(old(self).players@, client_id)].block_or_timer != BlockOrTimer::Timer(0),
        ensures
            game_step(*old(self), *final(self)),
            final(self).wf(),
            final(self).mode == old(self).mode,
            final(self).flashing_points == old(self).flashing_points,
            final(self).score == old(self).score,
            final(self).bomb_id_counter == old(self).bomb_id_counter,
            final(self).block_factory == old(self).block_factory,
            final(self).players@.len() == old(self).players@.len(),
            old(self).tick_result(client_id, *final(self), r),
    {
        proof {
            lemma_first_player_with(self.players@, client_id);
        }
        if let Some(i) = self.find_player(client_id) {
            proof {
                assert(self.players@[i as int].wf());
            }
            let need_reset = match self.players[i].block_or_timer {
                BlockOrTimer::Timer(n) => {
                    if n == 1 {
                        true
                    } else {
                        self.players[i].block_or_timer = BlockOrTimer::Timer(n - 1);
                        proof {
                            assert(self.players@[i as int].wf());
                        }
                        // call again in 1 second
                        return true;
                    }
                },
                _ => false,
            };
            if need_reset {
                self.clear_playing_area(i);
                let ghost mid = *self;
                self.new_block(i);
                proof {
                    assert(mid.got_new_block(self.players@[i as int], i as int, false));
                }
            }
        }
        false
    }

    /// Gives the bombs that have not started ticking (at most one per player) ids, counting
    /// up from the bomb id counter; returns the new ids.
    #[verifier::spinoff_prover]
    pub fn start_ticking_new_bombs(&mut self) -> (r: Vec<u64>)
        requires
            old(self).wf(),
            old(self).bomb_id_counter + old(self).players@.len() <= u64::MAX,
        ensures
            game_step(*old(self), *final(self)),
            final(self).wf(),
            final(self).mode == old(self).mode,
            final(self).landed_rows == old(self).landed_rows,
            final(self).flashing_points == old(self).flashing_points,
            final(self).score == old(self).score,
            final(self).block_factory == old(self).block_factory,
            final(self).players@.len() == old(self).players@.len(),
            final(self).bomb_id_counter == old(self).bomb_id_counter + new_bomb_count(old(self).players@),
            r@ == Seq::new(new_bomb_count(old(self).players@), |k: int| (old(self).bomb_id_counter + k) as u64),
            forall|j: int| 0 <= j < old(self).players@.len() ==> {
                let p = #[trigger] old(self).players@[j];
                let q = final(self).players@[j];
                if is_new_bomb(p) {
                    &&& same_except_block(q, p)
                    &&& p.block_or_timer matches BlockOrTimer::Block(b)
                    &&& q.block_or_timer matches BlockOrTimer::Block(nb)
                    &&& same_block_except_content(b, nb)
                    &&& b.square_content matches SquareContent::Bomb { timer, .. }
                    &&& nb.square_content == SquareContent::Bomb {
                        timer,
                        id: Some((old(self).bomb_id_counter + new_bomb_count(old(self).players@.take(j))) as u64),
                    }
                } else {
                    q == p
                }
            },
    {
        let mut bomb_ids: Vec<u64> = Vec::new();
        let n = self.players.len();
        let mut i: usize = 0;
        while i < n
            invariant
                i <= n == self.players@.len() == old(self).players@.len(),
                self.wf(),
                self.mode == old(self).mode,
                self.landed_rows == old(self).landed_rows,
                self.flashing_points == old(self).flashing_points,
                self.score == old(self).score,
                self.block_factory == old(self).block_factory,
                old(self).bomb_id_counter + n <= u64::MAX,
                new_bomb_count(old(self).players@.take(i as int)) <= i,
                self.bomb_id_counter == old(self).bomb_id_counter + new_bomb_count(old(self).players@.take(i as int)),
                bomb_ids@ == Seq::new(new_bomb_count(old(self).players@.take(i as int)), |k: int| (old(self).bomb_id_counter + k) as u64),
                forall|j: int| i <= j < n ==> #[trigger] self.players@[j] == old(self).players@[j],
                forall|j: int| 0 <= j < i ==> {
                    let p = #[trigger] old(self).players@[j];
                    let q = self.players@[j];
                    if is_new_bomb(p) {
                        &&& same_except_block(q, p)
                        &&& p.block_or_timer matches BlockOrTimer::Block(b)
                        &&& q.block_or_timer matches BlockOrTimer::Block(nb)
                        &&& same_block_except_content(b, nb)
                        &&& b.square_content matches SquareContent::Bomb { timer, .. }
                        &&& nb.square_content == SquareContent::Bomb {
                            timer,
                            id: Some((old(self).bomb_id_counter + new_bomb_count(old(self).players@.take(j))) as u64),
                        }
                    } else {
                        q == p
                    }
                },
            decreases n - i,
        {
            proof {
                assert(old(self).players@.take(i + 1).drop_last() =~= old(self).players@.take(i as int));
                assert(old(self).players@.take(i + 1).last() == old(self).players@[i as int]);
                assert(self.players@[i as int].wf());
            }
            let counter = self.bomb_id_counter;
            match &mut self.players[i].block_or_timer {
                BlockOrTimer::Block(block) => {
                    if let SquareContent::Bomb { timer, id: None } = block.square_content {
                        block.square_content = SquareContent::Bomb { timer, id: Some(counter) };
                        bomb_ids.push(counter);
                        self.bomb_id_counter = counter + 1;
                    }
                },
                _ => {},
            }
            proof {
                assert(self.players@[i as int].wf());
                assert(bomb_ids@ =~= Seq::new(new_bomb_count(old(self).players@.take(i + 1)), |k: int| (old(self).bomb_id_counter + k) as u64));
            }
            i = i + 1;
        }
        proof {
            assert(old(self).players@.take(n as int) =~= old(self).players@);
        }
        bomb_ids
    }

    /// The world points of the falling block of player `i`.
    fn world_points(&self, i: usize) -> (r: Vec<WorldPoint>)
        requires
            self.wf(),
            i < self.players@.len(),
        ensures
            r@ == block_world_points(self.players@[i as int]),
    {
        proof {
            assert(self.players@[i as int].wf());
        }
        let player = &self.players[i];
        let coords = player.block_or_timer.get_coords();
        let mut r: Vec<WorldPoint> = Vec::new();
        let mut k: usize = 0;
        while k < coords.len()
            invariant
                k <= coords@.len(),
                coords@ == player.block_or_timer.spec_coords(),
                r@ == block_world_points(*player).take(k as int),
            decreases coords@.len() - k,
        {
            r.push(player.player_to_world(coords[k]));
            proof {
                assert(r@ =~= block_world_points(*player).take(k + 1));
            }
            k = k + 1;
        }
        proof {
            assert(block_world_points(*player).take(coords@.len() as int) =~= block_world_points(*player));
        }
        r
    }

    /// One tick of the bombs with the id, falling and landed (a falling block's bomb ticks
    /// once however many squares it has; timers stop at zero). Returns the points of the
    /// bombs whose timers are then at zero, or `None` if no bomb has the id any more.
    pub fn tick_bombs_by_id(&mut self, bomb_id: u64) -> (r: Option<Vec<WorldPoint>>)
        requires
            old(self).wf(),
        ensures
            game_step(*old(self), *final(self)),
            final(self).wf(),
            final(self).mode == old(self).mode,
            final(self).flashing_points == old(self).flashing_points,
            final(self).score == old(self).score,
            final(self).bomb_id_counter == old(self).bomb_id_counter,
            final(self).block_factory == old(self).block_factory,
            final(self).players@.len() == old(self).players@.len(),
            final(self).rows() == rows_ticked(old(self).rows(), bomb_id),
            forall|j: int| 0 <= j < old(self).players@.len() ==> {
                let p = #[trigger] old(self).players@[j];
                let q = final(self).players@[j];
                match p.block_or_timer {
                    BlockOrTimer::Block(b) => {
                        &&& same_except_block(q, p)
                        &&& q.block_or_timer matches BlockOrTimer::Block(nb)
                        &&& same_block_except_content(b, nb)
                        &&& nb.square_content == ticked(b.square_content, bomb_id)
                    },
                    _ => q == p,
                }
            },
            r is Some <==> (exists|j: int| 0 <= j < old(self).players@.len()
                && (#[trigger] old(self).players@[j].block_or_timer matches BlockOrTimer::Block(b) && is_bomb_with_id(b.square_content, bomb_id)))
                || (exists|y: int, x: int| 0 <= y < old(self).height() && 0 <= x < old(self).rows()[y].len()
                && (#[trigger] old(self).rows()[y][x] matches Some(c) && is_bomb_with_id(c, bomb_id))),
            r matches Some(v) ==> v@ == falling_exploding(old(self).players@, bomb_id)
                + cells_matching(old(self).rows(), center_offset(old(self).mode), landed_exploding(bomb_id), old(self).height()),
    {
        let mut found = false;
        let mut result: Vec<WorldPoint> = Vec::new();
        let n = self.players.len();
        let mut i: usize = 0;
        while i < n
            invariant
                i <= n == self.players@.len() == old(self).players@.len(),
                self.wf(),
                self.mode == old(self).mode,
                self.landed_rows == old(self).landed_rows,
                self.flashing_points == old(self).flashing_points,
                self.score == old(self).score,
                self.bomb_id_counter == old(self).bomb_id_counter,
                self.block_factory == old(self).block_factory,
                result@ == falling_exploding(old(self).players@.take(i as int), bomb_id),
                found == exists|j: int| 0 <= j < i
                    && (#[trigger] old(self).players@[j].block_or_timer matches BlockOrTimer::Block(b) && is_bomb_with_id(b.square_content, bomb_id)),
                forall|j: int| i <= j < n ==> #[trigger] self.players@[j] == old(self).players@[j],
                forall|j: int| 0 <= j < i ==> {
                    let p = #[trigger] old(self).players@[j];
                    let q = self.players@[j];
                    match p.block_or_timer {
                        BlockOrTimer::Block(b) => {
                            &&& same_except_block(q, p)
                            &&& q.block_or_timer matches BlockOrTimer::Block(nb)
                            &&& same_block_except_content(b, nb)
                            &&& nb.square_content == ticked(b.square_content, bomb_id)
                        },
                        _ => q == p,
                    }
                },
            decreases n - i,
        {
            proof {
                assert(old(self).players@.take(i + 1).drop_last() =~= old(self).players@.take(i as int));
                assert(old(self).players@.take(i + 1).last() == old(self).players@[i as int]);
                assert(self.players@[i as int].wf());
            }
            let world = self.world_points(i);
            let ghost found_before = found;
            match &mut self.players[i].block_or_timer {
                BlockOrTimer::Block(block) => {
                    if let SquareContent::Bomb { timer, id: Some(bomb) } = block.square_content {
                        if bomb == bomb_id {
                            found = true;
                            // the timer can already be zero, if other bombs are exploding
                            let new_timer = if timer > 0 {
                                timer - 1
                            } else {
                                0
                            };
                            block.square_content = SquareContent::Bomb { timer: new_timer, id: Some(bomb) };
                            if new_timer == 0 {
                                let mut world = world;
                                result.append(&mut world);
                            }
                        }
                    }
                },
                _ => {},
            }
            proof {
                assert(self.players@[i as int].wf());
                if found && !found_before {
                    assert(old(self).players@[i as int].block_or_timer matches BlockOrTimer::Block(b) && is_bomb_with_id(b.square_content, bomb_id));
                }
            }
            i = i + 1;
        }
        proof {
            assert(old(self).players@.take(n as int) =~= old(self).players@);
        }
        let ghost after_falling = *self;
        let (found_landed, mut landed_points) = self.tick_landed_bombs(bomb_id);
        if found || found_landed {
            result.append(&mut landed_points);
            Some(result)
        } else {
            None
        }
    }

    /// One tick of the landed bombs with the id: whether there are any, and the points of
    /// those whose timers are then at zero.
    fn tick_landed_bombs(&mut self, bomb_id: u64) -> (r: (bool, Vec<WorldPoint>))
        requires
            old(self).wf(),
        ensures
            final(self).wf(),
            final(self).rows() == rows_ticked(old(self).rows(), bomb_id),
            final(self).players == old(self).players,
            final(self).mode == old(self).mode,
            final(self).flashing_points == old(self).flashing_points,
            final(self).score == old(self).score,
            final(self).bomb_id_counter == old(self).bomb_id_counter,
            final(self).block_factory == old(self).block_factory,
            r.0 == exists|y: int, x: int| 0 <= y < old(self).height() && 0 <= x < old(self).rows()[y].len()
                && (#[trigger] old(self).rows()[y][x] matches Some(c) && is_bomb_with_id(c, bomb_id)),
            r.1@ == cells_matching(old(self).rows(), center_offset(old(self).mode), landed_exploding(bomb_id), old(self).height()),
    {
        proof {
            self.lemma_wf_bounds();
        }
        let ghost start = self.rows();
        let ghost target = rows_ticked(start, bomb_id);
        let ghost offset = center_offset(self.mode);
        let ghost pred = landed_exploding(bomb_id);
        let (offset_x, offset_y) = self.get_center_offset();
        let mut found = false;
        let mut points: Vec<WorldPoint> = Vec::new();
        let h = self.landed_rows.len();
        let mut y: usize = 0;
        while y < h
            invariant
                y <= h == self.height() == start.len(),
                self.wf(),
                self.players == old(self).players,
                self.mode == old(self).mode,
                self.flashing_points == old(self).flashing_points,
                self.score == old(self).score,
                self.bomb_id_counter == old(self).bomb_id_counter,
                self.block_factory == old(self).block_factory,
                start == old(self).rows(),
                offset == center_offset(self.mode),
                offset_x == offset.0,
                offset_y == offset.1,
                target == rows_ticked(start, bomb_id),
                pred == landed_exploding(bomb_id),
                forall|yy: int| 0 <= yy < y ==> #[trigger] self.rows()[yy] == target[yy],
                forall|yy: int| y <= yy < h ==> #[trigger] self.rows()[yy] == start[yy],
                points@ == cells_matching(start, offset, pred, y as int),
                found == exists|yy: int, xx: int| 0 <= yy < y && 0 <= xx < start[yy].len()
                    && (#[trigger] start[yy][xx] matches Some(c) && is_bomb_with_id(c, bomb_id)),
            decreases h - y,
        {
            proof {
                self.lemma_wf_bounds();
                assert(self.rows()[y as int] == self.landed_rows@[y as int]@);
            }
            let w = self.landed_rows[y].len();
            let ghost points_before = points@;
            let ghost found_before = found;
            let mut row: Vec<Option<SquareContent>> = Vec::new();
            let mut x: usize = 0;
            while x < w
                invariant
                    x <= w == start[y as int].len(),
                    y < h == start.len(),
                    w <= 59,
                    y <= 37,
                    offset_x == offset.0,
                    offset_y == offset.1,
                    offset == center_offset(self.mode),
                    self.rows()[y as int] == start[y as int],
                    self.rows()[y as int] == self.landed_rows@[y as int]@,
                    self.landed_rows@.len() == h,
                    self.landed_rows@[y as int]@.len() == w,
                    target == rows_ticked(start, bomb_id),
                    pred == landed_exploding(bomb_id),
                    row@ == target[y as int].take(x as int),
                    points@ == points_before + row_cells_matching(start[y as int], y as int, offset, pred, x as int),
                    found == (found_before || exists|xx: int| 0 <= xx < x
                        && (#[trigger] start[y as int][xx] matches Some(c) && is_bomb_with_id(c, bomb_id))),
                decreases w - x,
            {
                let cell = self.landed_rows[y][x];
                match cell {
                    Some(SquareContent::Bomb { timer, id: Some(bomb) }) => {
                        if bomb == bomb_id {
                            found = true;
                            let new_timer = if timer > 0 {
                                timer - 1
                            } else {
                                0
                            };
                            row.push(Some(SquareContent::Bomb { timer: new_timer, id: Some(bomb) }));
                            if new_timer == 0 {
                                points.push((x as i16 - offset_x, y as i16 - offset_y));
                            }
                        } else {
                            row.push(cell);
                        }
                    },
                    _ => row.push(cell),
                }
                proof {
                    assert(row@ =~= target[y as int].take(x + 1));
                    assert(points@ =~= points_before + row_cells_matching(start[y as int], y as int, offset, pred, x + 1));
                }
                x = x + 1;
            }
            proof {
                assert(row@ =~= target[y as int]);
                assert(points@ =~= cells_matching(start, offset, pred, y + 1));
            }
            let ghost before = self.rows();
            self.landed_rows.set(y, row);
            proof {
                assert forall|k: int| 0 <= k < self.landed_rows@.len() implies #[trigger] self.landed_rows@[k]@.len() == self.width() by {
                    assert(self.rows()[k] == self.landed_rows@[k]@);
                }
                assert forall|yy: int| 0 <= yy < y + 1 implies #[trigger] self.rows()[yy] == target[yy] by {
                    assert(self.rows()[yy] == self.landed_rows@[yy]@);
                    if yy < y {
                        assert(before[yy] == target[yy]);
                    }
                }
                assert forall|yy: int| y + 1 <= yy < h implies #[trigger] self.rows()[yy] == start[yy] by {
                    assert(self.rows()[yy] == self.landed_rows@[yy]@);
                    assert(before[yy] == start[yy]);
                }
            }
            y = y + 1;
        }
        proof {
            assert(self.rows() =~= target);
        }
        (found, points)
    }

    /// The landed squares at the flashing points are gone and so are the falling squares
    /// there (players left without squares get new blocks). Returns the points of bombs hit
    /// by the explosion that were not exploding already: falling ones player by player, then
    /// landed ones row by row.
    pub fn finish_explosion(&mut self, old_bomb_points: &[WorldPoint], old_flashing_points: &[WorldPoint]) -> (r: Vec<WorldPoint>)
        requires
            old(self).wf(),
        ensures
            game_step(*old(self), *final(self)),
            final(self).wf(),
            final(self).mode == old(self).mode,
            final(self).flashing_points == old(self).flashing_points,
            final(self).score == old(self).score,
            final(self).bomb_id_counter == old(self).bomb_id_counter,
            final(self).block_factory == old(self).block_factory,
            final(self).players@.len() == old(self).players@.len(),
            r@ == falling_bombs_hit(old(self).players@, old_flashing_points@, old_bomb_points@)
                + cells_matching(old(self).rows(), center_offset(old(self).mode), bomb_hit(old_flashing_points@, old_bomb_points@), old(self).height()),
            forall|j: int| 0 <= j < old(self).players@.len() ==> squares_removed(old(self).players@[j], #[trigger] final(self).players@[j], old_flashing_points@),
            final(self).rows() == rows_without(old(self).rows(), old_flashing_points@, center_offset(old(self).mode)),
    {
        let mut bomb_locations: Vec<WorldPoint> = Vec::new();
        let n = self.players.len();
        let mut i: usize = 0;
        while i < n
            invariant
                i <= n == self.players@.len(),
                self == old(self),
                self.wf(),
                bomb_locations@ == falling_bombs_hit(self.players@.take(i as int), old_flashing_points@, old_bomb_points@),
            decreases n - i,
        {
            proof {
                assert(self.players@.take(i + 1).drop_last() =~= self.players@.take(i as int));
                assert(self.players@.take(i + 1).last() == self.players@[i as int]);
                assert(self.players@[i as int].wf());
            }
            let is_bomb = match &self.players[i].block_or_timer {
                BlockOrTimer::Block(b) => b.square_content.is_bomb(),
                _ => false,
            };
            if is_bomb {
                let world = self.world_points(i);
                let ghost before = bomb_locations@;
                let ghost pred = |q: WorldPoint| old_flashing_points@.contains(q) && !old_bomb_points@.contains(q);
                let mut k: usize = 0;
                while k < world.len()
                    invariant
                        k <= world@.len(),
                        pred == |q: WorldPoint| old_flashing_points@.contains(q) && !old_bomb_points@.contains(q),
                        bomb_locations@ == before + filter_points(world@, pred, k as int),
                    decreases world@.len() - k,
                {
                    let p = world[k];
                    if contains_point(old_flashing_points, p) && !contains_point(old_bomb_points, p) {
                        bomb_locations.push(p);
                    }
                    proof {
                        assert(bomb_locations@ =~= before + filter_points(world@, pred, k + 1));
                    }
                    k = k + 1;
                }
            }
            i = i + 1;
        }
        proof {
            assert(self.players@.take(n as int) =~= self.players@);
            self.lemma_wf_bounds();
        }
        let ghost offset = center_offset(self.mode);
        let ghost pred = bomb_hit(old_flashing_points@, old_bomb_points@);
        let (offset_x, offset_y) = self.get_center_offset();
        let h = self.landed_rows.len();
        let ghost falling_part = bomb_locations@;
        let mut y: usize = 0;
        while y < h
            invariant
                y <= h == self.height(),
                self == old(self),
                self.wf(),
                offset == center_offset(self.mode),
                offset_x == offset.0,
                offset_y == offset.1,
                pred == bomb_hit(old_flashing_points@, old_bomb_points@),
                bomb_locations@ == falling_part + cells_matching(self.rows(), offset, pred, y as int),
            decreases h - y,
        {
            proof {
                self.lemma_wf_bounds();
                assert(self.rows()[y as int] == self.landed_rows@[y as int]@);
            }
            let w = self.landed_rows[y].len();
            let ghost before = bomb_locations@;
            let mut x: usize = 0;
            while x < w
                invariant
                    x <= w == self.rows()[y as int].len(),
                    y < h == self.height(),
                    w <= 59,
                    h <= 37,
                    self.wf(),
                    self.rows()[y as int] == self.landed_rows@[y as int]@,
                    offset == center_offset(self.mode),
                    offset_x == offset.0,
                    offset_y == offset.1,
                    pred == bomb_hit(old_flashing_points@, old_bomb_points@),
                    bomb_locations@ == before + row_cells_matching(self.rows()[y as int], y as int, offset, pred, x as int),
                decreases w - x,
            {
                if let Some(content) = self.landed_rows[y][x] {
                    let p = (x as i16 - offset_x, y as i16 - offset_y);
                    if content.is_bomb() && contains_point(old_flashing_points, p) && !contains_point(old_bomb_points, p) {
                        bomb_locations.push(p);
                    }
                }
                proof {
                    assert(bomb_locations@ =~= before + row_cells_matching(self.rows()[y as int], y as int, offset, pred, x + 1));
                }
                x = x + 1;
            }
            proof {
                assert(bomb_locations@ =~= falling_part + cells_matching(self.rows(), offset, pred, y + 1));
            }
            y = y + 1;
        }
        self.remove_falling_squares_at(old_flashing_points, None);
        self.remove_landed_squares_at(old_flashing_points);
        bomb_locations
    }

    /// The points inside the playing area within 3.5 of a bomb, each once (in no
    /// particular order).
    pub fn get_points_to_flash(&self, bomb_centers: &[WorldPoint]) -> (r: Vec<WorldPoint>)
        requires
            self.wf(),
            forall|k: int| 0 <= k < bomb_centers@.len() ==> i16::MIN + 4 <= #[trigger] bomb_centers@[k].0 <= i16::MAX - 4
                && i16::MIN + 4 <= bomb_centers@[k].1 <= i16::MAX - 4,
        ensures
            r@.no_duplicates(),
            forall|p: WorldPoint| r@.contains(p) <==> self.valid_landed(p)
                && exists|k: int| 0 <= k < bomb_centers@.len() && in_blast(#[trigger] bomb_centers@[k], p),
    {
        let mut result: Vec<WorldPoint> = Vec::new();
        let mut k: usize = 0;
        while k < bomb_centers.len()
            invariant
                k <= bomb_centers@.len(),
                self.wf(),
                forall|q: int| 0 <= q < bomb_centers@.len() ==> i16::MIN + 4 <= #[trigger] bomb_centers@[q].0 <= i16::MAX - 4
                    && i16::MIN + 4 <= bomb_centers@[q].1 <= i16::MAX - 4,
                result@.no_duplicates(),
                forall|p: WorldPoint| result@.contains(p) <==> self.valid_landed(p)
                    && exists|q: int| 0 <= q < k && in_blast(#[trigger] bomb_centers@[q], p),
            decreases bomb_centers@.len() - k,
        {
            let (cx, cy) = bomb_centers[k];
            let ghost c = bomb_centers@[k as int];
            proof {
                assert forall|q: WorldPoint| #[trigger] result@.contains(q) == flashed_so_far(*self, bomb_centers@, k as int, c, -4, -4, q) by {
                    lemma_blast_bounds(c, q);
                }
            }
            let mut dx: i16 = -4;
            while dx <= 4
                invariant
                    -4 <= dx <= 5,
                    k < bomb_centers@.len(),
                    c == bomb_centers@[k as int],
                    c == (cx, cy),
                    i16::MIN + 4 <= cx <= i16::MAX - 4,
                    i16::MIN + 4 <= cy <= i16::MAX - 4,
                    self.wf(),
                    result@.no_duplicates(),
                    forall|p: WorldPoint| #[trigger] result@.contains(p) == flashed_so_far(*self, bomb_centers@, k as int, c, dx as int, -4, p),
                decreases 5 - dx,
            {
                proof {
                    assert forall|q: WorldPoint| #[trigger] result@.contains(q) == flashed_so_far(*self, bomb_centers@, k as int, c, dx as int, -4, q) by {
                        lemma_blast_bounds(c, q);
                    }
                }
                let mut dy: i16 = -4;
                while dy <= 4
                    invariant
                        -4 <= dx <= 4,
                        -4 <= dy <= 5,
                        k < bomb_centers@.len(),
                        c == bomb_centers@[k as int],
                        c == (cx, cy),
                        i16::MIN + 4 <= cx <= i16::MAX - 4,
                        i16::MIN + 4 <= cy <= i16::MAX - 4,
                        self.wf(),
                        result@.no_duplicates(),
                        forall|p: WorldPoint| #[trigger] result@.contains(p) == flashed_so_far(*self, bomb_centers@, k as int, c, dx as int, dy as int, p),
                    decreases 5 - dy,
                {
                    let p = (cx + dx, cy + dy);
                    let ghost before = result@;
                    if square_small(dx) + square_small(dy) <= 12 && self.is_valid_landed_block_coords(p) && !contains_point(result.as_slice(), p) {
                        result.push(p);
                        proof {
                            assert forall|q: WorldPoint| #[trigger] result@.contains(q) == (before.contains(q) || q == p) by {
                                lemma_push_contains(before, p, q);
                            }
                            assert(result@.no_duplicates()) by {
                                assert forall|a: int, b: int| 0 <= a < b < result@.len() implies result@[a] != result@[b] by {
                                    if b == result@.len() - 1 {
                                        assert(before.contains(before[a]));
                                    }
                                }
                            }
                        }
                    }
                    let ghost old_dy = dy;
                    dy = dy + 1;
                    proof {
                        assert forall|q: WorldPoint| #[trigger] result@.contains(q) == flashed_so_far(*self, bomb_centers@, k as int, c, dx as int, dy as int, q) by {
                            assert(before.contains(q) == flashed_so_far(*self, bomb_centers@, k as int, c, dx as int, old_dy as int, q));
                            if result@ != before {
                                lemma_push_contains(before, p, q);
                            }
                            if q.0 - c.0 == dx && q.1 - c.1 == old_dy {
                                assert(q == p);
                            } else {
                                assert(flashed_so_far(*self, bomb_centers@, k as int, c, dx as int, dy as int, q)
                                    == flashed_so_far(*self, bomb_centers@, k as int, c, dx as int, old_dy as int, q));
                            }
                        }
                    }
                }
                let ghost old_dx = dx;
                dx = dx + 1;
                proof {
                    assert forall|q: WorldPoint| #[trigger] result@.contains(q) == flashed_so_far(*self, bomb_centers@, k as int, c, dx as int, -4, q) by {
                        lemma_blast_bounds(c, q);
                        assert(result@.contains(q) == flashed_so_far(*self, bomb_centers@, k as int, c, old_dx as int, 5, q));
                    }
                }
            }
            proof {
                assert forall|q: WorldPoint| result@.contains(q) <==> self.valid_landed(q)
                    && exists|j: int| 0 <= j < k + 1 && in_blast(#[trigger] bomb_centers@[j], q) by {
                    lemma_blast_bounds(c, q);
                    assert(result@.contains(q) == flashed_so_far(*self, bomb_centers@, k as int, c, 5, -4, q));
                    if in_blast(c, q) {
                        assert(in_blast(bomb_centers@[k as int], q));
                    }
                }
            }
            k = k + 1;
        }
        result
    }

    /// Puts every player's spawn point in the middle of the player's part of the game
    /// (ring games keep theirs).
    fn update_spawn_points(&mut self)
        requires
            old(self).wf(),
        ensures
            final(self).wf(),
            final(self).mode == old(self).mode,
            final(self).landed_rows == old(self).landed_rows,
            final(self).flashing_points == old(self).flashing_points,
            final(self).score == old(self).score,
            final(self).bomb_id_counter == old(self).bomb_id_counter,
            final(self).block_factory == old(self).block_factory,
            final(self).players@.len() == old(self).players@.len(),
            forall|j: int| 0 <= j < old(self).players@.len() ==> {
                let p = #[trigger] old(self).players@[j];
                let q = final(self).players@[j];
                &&& q.client_id == p.client_id && q.name == p.name && q.color == p.color
                &&& q.block_or_timer == p.block_or_timer && q.next_block == p.next_block
                &&& q.block_in_hold == p.block_in_hold && q.fast_down == p.fast_down
                &&& q.down_direction == p.down_direction
                &&& q.spawn_point == if old(self).mode == Mode::Ring {
                    p.spawn_point
                } else {
                    spawn_point_spec(old(self).mode, old(self).players@.len() as int, j)
                }
            },
    {
        if self.mode == Mode::Ring {
            return;
        }
        proof {
            self.lemma_wf_bounds();
        }
        let n = self.players.len();
        let w: i32 = if n >= 2 { 7 } else { 10 };
        let mut i: usize = 0;
        while i < n
            invariant
                i <= n == self.players@.len() == old(self).players@.len() <= 6,
                self.mode == old(self).mode,
                self.mode != Mode::Ring,
                w == width_per_player_spec(n as int),
                self.wf(),
                self.landed_rows == old(self).landed_rows,
                self.flashing_points == old(self).flashing_points,
                self.score == old(self).score,
                self.bomb_id_counter == old(self).bomb_id_counter,
                self.block_factory == old(self).block_factory,
                forall|j: int| i <= j < n ==> #[trigger] self.players@[j] == old(self).players@[j],
                forall|j: int| 0 <= j < i ==> {
                    let p = #[trigger] old(self).players@[j];
                    let q = self.players@[j];
                    &&& q.client_id == p.client_id && q.name == p.name && q.color == p.color
                    &&& q.block_or_timer == p.block_or_timer && q.next_block == p.next_block
                    &&& q.block_in_hold == p.block_in_hold && q.fast_down == p.fast_down
                    &&& q.down_direction == p.down_direction
                    &&& q.spawn_point == spawn_point_spec(old(self).mode, n as int, j)
                },
            decreases n - i,
        {
            proof {
                assert(self.players@[i as int].wf());
            }
            let point = match self.mode {
                Mode::Traditional => ((i as i32) * w + w / 2, 0),
                _ => ((BOTTLE_OUTER_WIDTH * i + BOTTLE_INNER_WIDTH / 2) as i32, 0),
            };
            self.players[i].spawn_point = point;
            proof {
                assert(self.players@[i as int].wf());
            }
            i = i + 1;
        }
    }

    /// The new x coordinate of a point when the columns `left..left + width` are removed:
    /// points on the right move left, points inside are gone (`None`).
    pub open spec fn wiped_x(x: int, left: int, width: int) -> Option<int> {
        if x < left {
            Some(x)
        } else if x >= left + width {
            Some(x - width)
        } else {
            None
        }
    }

    /// Removes the columns `left..left + width` of a traditional or bottle game: the
    /// columns on the right move left, and so do the falling blocks (their squares inside
    /// the removed columns are gone, and a center inside them moves to `left`).
    fn wipe_vertical_slice(&mut self, left: usize, width: usize, old_width: usize)
        requires
            old(self).mode != Mode::Ring,
            old(self).wf_with_width(old_width as int),
            1 <= width,
            left + width <= old_width <= 59,
            old_width - width == old(self).width(),
        ensures
            final(self).wf(),
            final(self).mode == old(self).mode,
            final(self).flashing_points == old(self).flashing_points,
            final(self).score == old(self).score,
            final(self).bomb_id_counter == old(self).bomb_id_counter,
            final(self).block_factory == old(self).block_factory,
            final(self).players@.len() == old(self).players@.len(),
            final(self).landed_rows@.len() == old(self).landed_rows@.len(),
            forall|y: int| 0 <= y < old(self).landed_rows@.len() ==> #[trigger] final(self).rows()[y]
                == old(self).rows()[y].subrange(0, left as int) + old(self).rows()[y].subrange(left + width, old_width as int),
            forall|j: int| 0 <= j < old(self).players@.len() ==> {
                let p = #[trigger] old(self).players@[j];
                let q = final(self).players@[j];
                &&& same_identity(q, p)
                &&& !(p.block_or_timer is Block) ==> q == p
            },
            forall|j: int| 0 <= j < old(self).players@.len() ==> block_wiped(#[trigger] old(self).players@[j], final(self).players@[j], left as int, width as int),
    {
        let right = left + width;
        let h = self.landed_rows.len();
        let mut y: usize = 0;
        while y < h
            invariant
                y <= h == self.landed_rows@.len() == old(self).landed_rows@.len(),
                right == left + width,
                right <= old_width <= 59,
                forall|yy: int| 0 <= yy < h ==> #[trigger] old(self).landed_rows@[yy]@.len() == old_width,
                self.mode == old(self).mode,
                self.players == old(self).players,
                self.flashing_points == old(self).flashing_points,
                self.score == old(self).score,
                self.bomb_id_counter == old(self).bomb_id_counter,
                self.block_factory == old(self).block_factory,
                forall|yy: int| 0 <= yy < y ==> #[trigger] self.landed_rows@[yy]@
                    == old(self).landed_rows@[yy]@.subrange(0, left as int) + old(self).landed_rows@[yy]@.subrange(right as int, old_width as int),
                forall|yy: int| 0 <= yy < y ==> #[trigger] self.landed_rows@[yy]@.len() == old_width - width,
                forall|yy: int| y <= yy < h ==> #[trigger] self.landed_rows@[yy] == old(self).landed_rows@[yy],
            decreases h - y,
        {
            proof {
                assert(old(self).landed_rows@[y as int]@.len() == old_width);
                assert(old(self).rows()[y as int] == old(self).landed_rows@[y as int]@);
            }
            let mut row: Vec<Option<SquareContent>> = Vec::new();
            let mut x: usize = 0;
            while x < old_width
                invariant
                    x <= old_width,
                    y < h == self.landed_rows@.len(),
                    right == left + width,
                    right <= old_width,
                    self.landed_rows@[y as int] == old(self).landed_rows@[y as int],
                    old(self).landed_rows@[y as int]@.len() == old_width,
                    row@ == (if x <= left {
                        old(self).landed_rows@[y as int]@.subrange(0, x as int)
                    } else if x <= right {
                        old(self).landed_rows@[y as int]@.subrange(0, left as int)
                    } else {
                        old(self).landed_rows@[y as int]@.subrange(0, left as int) + old(self).landed_rows@[y as int]@.subrange(right as int, x as int)
                    }),
                decreases old_width - x,
            {
                if x < left || x >= right {
                    row.push(self.landed_rows[y][x]);
                }
                proof {
                    let r0 = old(self).landed_rows@[y as int]@;
                    if x + 1 <= left {
                        assert(row@ =~= r0.subrange(0, x + 1));
                    } else if x + 1 <= right {
                        assert(row@ =~= r0.subrange(0, left as int));
                    } else {
                        assert(row@ =~= r0.subrange(0, left as int) + r0.subrange(right as int, x + 1));
                    }
                }
                x = x + 1;
            }
            proof {
                let r0 = old(self).landed_rows@[y as int]@;
                assert(row@ =~= r0.subrange(0, left as int) + r0.subrange(right as int, old_width as int));
            }
            let ghost before = self.landed_rows@;
            self.landed_rows.set(y, row);
            proof {
                assert forall|yy: int| 0 <= yy < y + 1 implies #[trigger] self.landed_rows@[yy]@
                    == old(self).landed_rows@[yy]@.subrange(0, left as int) + old(self).landed_rows@[yy]@.subrange(right as int, old_width as int) by {
                    if yy < y {
                        assert(self.landed_rows@[yy] == before[yy]);
                    }
                }
                assert forall|yy: int| 0 <= yy < y + 1 implies #[trigger] self.landed_rows@[yy]@.len() == old_width - width by {
                    if yy < y {
                        assert(self.landed_rows@[yy] == before[yy]);
                    }
                }
                assert forall|yy: int| y + 1 <= yy < h implies #[trigger] self.landed_rows@[yy] == old(self).landed_rows@[yy] by {
                    assert(self.landed_rows@[yy] == before[yy]);
                }
            }
            y = y + 1;
        }
        proof {
            assert(self.wf());
            assert forall|yy: int| 0 <= yy < h implies #[trigger] self.rows()[yy]
                == old(self).rows()[yy].subrange(0, left as int) + old(self).rows()[yy].subrange(right as int, old_width as int) by {
                assert(self.rows()[yy] == self.landed_rows@[yy]@);
                assert(old(self).rows()[yy] == old(self).landed_rows@[yy]@);
            }
        }
        let ghost wiped_rows = self.landed_rows;
        let ghost wiped_spec = self.rows();
        let mut need_new_block: Vec<usize> = Vec::new();
        let n = self.players.len();
        let mut i: usize = 0;
        while i < n
            invariant
                self.landed_rows == wiped_rows,
                wiped_spec == wiped_rows@.map_values(|row: Vec<Option<SquareContent>>| row@),
                forall|yy: int| 0 <= yy < h ==> #[trigger] wiped_spec[yy]
                    == old(self).rows()[yy].subrange(0, left as int) + old(self).rows()[yy].subrange(right as int, old_width as int),
                forall|q: int| 0 <= q < need_new_block@.len() ==> #[trigger] need_new_block@[q] < n,
                forall|q: int| 0 <= q < need_new_block@.len() ==> #[trigger] old(self).players@[need_new_block@[q] as int].block_or_timer is Block,
                i <= n == self.players@.len() == old(self).players@.len(),
                right == left + width,
                1 <= width,
                right <= old_width <= 59,
                self.wf(),
                self.mode == old(self).mode,
                self.mode != Mode::Ring,
                self.landed_rows@.len() == old(self).landed_rows@.len(),
                h == self.landed_rows@.len(),
                self.flashing_points == old(self).flashing_points,
                self.score == old(self).score,
                self.bomb_id_counter == old(self).bomb_id_counter,
                self.block_factory == old(self).block_factory,
                forall|j: int| i <= j < n ==> #[trigger] self.players@[j] == old(self).players@[j],
                forall|j: int| 0 <= j < i ==> {
                    let p = #[trigger] old(self).players@[j];
                    let q = self.players@[j];
                    &&& same_identity(q, p)
                    &&& !(p.block_or_timer is Block) ==> q == p
                },
                forall|j: int| 0 <= j < i ==> block_shifted(#[trigger] old(self).players@[j], self.players@[j], left as int, width as int),
                forall|q: int| 0 <= q < need_new_block@.len() ==> #[trigger] need_new_block@[q] < i,
                increasing(need_new_block@),
                forall|j: int| 0 <= j < i && #[trigger] wiped_away(old(self).players@[j], left as int, width as int) ==> need_new_block@.contains(j as usize),
                forall|q: int| 0 <= q < need_new_block@.len() ==> wiped_away(old(self).players@[#[trigger] need_new_block@[q] as int], left as int, width as int),
            decreases n - i,
        {
            proof {
                assert(self.players@[i as int].wf());
            }
            let ghost need_before = need_new_block@;
            let ghost before_players = self.players@;
            let player = &self.players[i];
            if let BlockOrTimer::Block(block) = &player.block_or_timer {
                let old_points = block.get_coords();
                let (center_x, center_y) = block.center;
                let ghost b = *block;
                proof {
                    crate::game_logic::blocks::lemma_add_center_bounds(b.center, b.relative_coords@);
                }
                let l = left as i32;
                let w = width as i32;
                let r = right as i32;
                // the center moves like the other points, but it cannot be removed
                let new_center_x = if center_x >= r {
                    center_x - w
                } else if center_x >= l {
                    l
                } else {
                    center_x
                };
                let mut new_points: Vec<PlayerPoint> = Vec::new();
                let mut k: usize = 0;
                while k < old_points.len()
                    invariant
                        k <= old_points@.len(),
                        old_points@ == add_center(b.center, b.relative_coords@),
                        b.wf(),
                        b.center == (center_x, center_y),
                        l == left, w == width, r == right, r == l + w, 1 <= w, r <= 59,
                        new_center_x == (if center_x >= r { center_x - w } else if center_x >= l { l as int } else { center_x as int }),
                        forall|q: int| 0 <= q < old_points@.len() ==> center_x - 16 <= #[trigger] old_points@[q].0 <= center_x + 16,
                        forall|q: int| 0 <= q < new_points@.len() ==> -16 <= #[trigger] new_points@[q].0 - new_center_x <= 16
                            && -16 <= new_points@[q].1 - center_y <= 16,
                        b.square_content.spec_is_drill() ==> forall|q: int| 0 <= q < new_points@.len() ==> crate::game_logic::blocks::in_drill_shape(
                            ((#[trigger] new_points@[q].0 - new_center_x) as i8, (new_points@[q].1 - center_y) as i8)),
                        new_points@ == wiped_points(old_points@.take(k as int), left as int, width as int),
                    decreases old_points@.len() - k,
                {
                    let (x, y) = old_points[k];
                    proof {
                        assert(-16 <= b.relative_coords@[k as int].0 <= 16 && -16 <= b.relative_coords@[k as int].1 <= 16);
                        if b.square_content.spec_is_drill() {
                            assert(crate::game_logic::blocks::in_drill_shape(b.relative_coords@[k as int]));
                        }
                    }
                    // remove points in the slice, move points on the right side
                    if x < l {
                        new_points.push((x, y));
                    } else if x >= r {
                        new_points.push((x - w, y));
                    }
                    proof {
                        assert(old_points@.take(k + 1).drop_last() =~= old_points@.take(k as int));
                        assert(old_points@.take(k + 1).last() == old_points@[k as int]);
                    }
                    k = k + 1;
                }
                proof {
                    assert(old_points@.take(old_points@.len() as int) =~= old_points@);
                }
                let new_center = (new_center_x, center_y);
                if new_points.len() == 0 {
                    // every square was in the removed columns
                    need_new_block.push(i);
                    proof {
                        assert(need_new_block@[need_new_block@.len() - 1] == i);
                        assert forall|a: int, c: int| 0 <= a < c < need_new_block@.len() implies need_new_block@[a] < need_new_block@[c] by {
                            if c < need_before.len() {
                                assert(need_before[a] < need_before[c]);
                            } else {
                                assert(need_before[a] < i);
                            }
                        }
                    }
                } else if i32::MIN + 128 <= new_center_x && new_center_x <= i32::MAX - 128 {
                    match &mut self.players[i].block_or_timer {
                        BlockOrTimer::Block(block) => block.set_player_coords(new_points.as_slice(), new_center),
                        _ => {},
                    }
                    proof {
                        let nb = self.players@[i as int].block_or_timer->Block_0;
                        assert(add_center(nb.center, nb.relative_coords@) =~= new_points@);
                    }
                }
            }
            proof {
                assert(self.players@[i as int].wf());
                assert forall|j: int| 0 <= j < i + 1 implies block_shifted(#[trigger] old(self).players@[j], self.players@[j], left as int, width as int) by {
                    if j < i {
                        assert(self.players@[j] == before_players[j]);
                    }
                }
                assert forall|j: int| 0 <= j < i + 1 && #[trigger] wiped_away(old(self).players@[j], left as int, width as int) implies need_new_block@.contains(j as usize) by {
                    if j < i {
                        let w = choose|w: int| 0 <= w < need_before.len() && #[trigger] need_before[w] == j as usize;
                        assert(need_new_block@[w] == j as usize);
                    } else {
                        assert(need_new_block@[need_new_block@.len() - 1] == i);
                    }
                }
            }
            i = i + 1;
        }
        let ghost mid_players = self.players@;
        let mut k: usize = 0;
        while k < need_new_block.len()
            invariant
                k <= need_new_block@.len(),
                forall|q: int| 0 <= q < need_new_block@.len() ==> #[trigger] need_new_block@[q] < n,
                n == self.players@.len() == old(self).players@.len(),
                self.wf(),
                self.mode == old(self).mode,
                self.landed_rows == wiped_rows,
                wiped_spec == wiped_rows@.map_values(|row: Vec<Option<SquareContent>>| row@),
                h == old(self).landed_rows@.len(),
                forall|yy: int| 0 <= yy < h ==> #[trigger] wiped_spec[yy]
                    == old(self).rows()[yy].subrange(0, left as int) + old(self).rows()[yy].subrange(right as int, old_width as int),
                self.flashing_points == old(self).flashing_points,
                self.score == old(self).score,
                self.bomb_id_counter == old(self).bomb_id_counter,
                self.block_factory == old(self).block_factory,
                forall|j: int| 0 <= j < n ==> {
                    let p = #[trigger] old(self).players@[j];
                    let q = self.players@[j];
                    &&& same_identity(q, p)
                    &&& !(p.block_or_timer is Block) ==> q == p
                },
                forall|q: int| 0 <= q < need_new_block@.len() ==> #[trigger] old(self).players@[need_new_block@[q] as int].block_or_timer is Block,
                increasing(need_new_block@),
                forall|q: int| 0 <= q < need_new_block@.len() ==> wiped_away(old(self).players@[#[trigger] need_new_block@[q] as int], left as int, width as int),
                forall|j: int| 0 <= j < n ==> block_shifted(#[trigger] old(self).players@[j], mid_players[j], left as int, width as int),
                forall|j: int| 0 <= j < n && #[trigger] wiped_away(old(self).players@[j], left as int, width as int) ==> need_new_block@.contains(j as usize),
                forall|j: int| 0 <= j < n ==> if need_new_block@.take(k as int).contains(j as usize) {
                    respawned(mid_players[j], #[trigger] self.players@[j])
                } else {
                    self.players@[j] == mid_players[j]
                },
            decreases need_new_block@.len() - k,
        {
            let idx = need_new_block[k];
            let ghost before_players = self.players@;
            proof {
                if need_new_block@.take(k as int).contains(idx) {
                    let w = choose|w: int| 0 <= w < k && #[trigger] need_new_block@.take(k as int)[w] == idx;
                    assert(need_new_block@[w] < need_new_block@[k as int]);
                }
                assert(before_players[idx as int] == mid_players[idx as int]);
            }
            self.new_block(idx);
            proof {
                assert(need_new_block@.take(k + 1) =~= need_new_block@.take(k as int).push(idx));
                assert forall|j: int| 0 <= j < n implies if need_new_block@.take(k + 1).contains(j as usize) {
                    respawned(mid_players[j], #[trigger] self.players@[j])
                } else {
                    self.players@[j] == mid_players[j]
                } by {
                    if j == idx {
                        assert(need_new_block@.take(k + 1)[k as int] == idx);
                    } else {
                        assert(self.players@[j] == before_players[j]);
                        if need_new_block@.take(k + 1).contains(j as usize) {
                            let w = choose|w: int| 0 <= w < k + 1 && #[trigger] need_new_block@.take(k + 1)[w] == j as usize;
                            assert(need_new_block@.take(k as int)[w] == j as usize);
                        }
                        if need_new_block@.take(k as int).contains(j as usize) {
                            let w = choose|w: int| 0 <= w < k && #[trigger] need_new_block@.take(k as int)[w] == j as usize;
                            assert(need_new_block@.take(k + 1)[w] == j as usize);
                        }
                    }
                }
            }
            k = k + 1;
        }
        proof {
            assert(need_new_block@.take(need_new_block@.len() as int) =~= need_new_block@);
            assert forall|j: int| 0 <= j < n implies block_wiped(#[trigger] old(self).players@[j], self.players@[j], left as int, width as int) by {
                assert(block_shifted(old(self).players@[j], mid_players[j], left as int, width as int));
                if wiped_away(old(self).players@[j], left as int, width as int) {
                    assert(need_new_block@.contains(j as usize));
                    assert(respawned(mid_players[j], self.players@[j]));
                } else if need_new_block@.contains(j as usize) {
                    let w = choose|w: int| 0 <= w < need_new_block@.len() && #[trigger] need_new_block@[w] == j as usize;
                    assert(wiped_away(old(self).players@[need_new_block@[w] as int], left as int, width as int));
                }
            }
        }
    }

    /// The direction in which a new player of a ring game falls: the first candidate (see
    /// `direction_candidates`) that no player uses yet.
    fn choose_down_direction(&self) -> (r: WorldPoint)
        requires
            self.wf(),
            self.mode == Mode::Ring,
            self.players@.len() < 4,
        ensures
            first_unused(direction_candidates(self.players@), used_directions(self.players@)) == Some(r),
            crate::game_logic::player::is_down_direction(r),
    {
        let ghost used = used_directions(self.players@);
        let ghost cands = direction_candidates(self.players@);
        let mut candidates: Vec<WorldPoint> = Vec::new();
        let mut i: usize = 0;
        while i < self.players.len()
            invariant
                i <= self.players@.len(),
                self.wf(),
                candidates@ == self.players@.take(i as int).map_values(|p: Player| ((-p.down_direction.0) as i16, (-p.down_direction.1) as i16)),
            decreases self.players@.len() - i,
        {
            proof {
                assert(self.players@[i as int].wf());
            }
            let (x, y) = self.players[i].down_direction;
            candidates.push((-x, -y));
            proof {
                assert(candidates@ =~= self.players@.take(i + 1).map_values(|p: Player| ((-p.down_direction.0) as i16, (-p.down_direction.1) as i16)));
            }
            i = i + 1;
        }
        candidates.push((0, 1));
        candidates.push((0, -1));
        candidates.push((1, 0));
        candidates.push((-1, 0));
        proof {
            assert(self.players@.take(self.players@.len() as int) =~= self.players@);
            assert(candidates@ =~= cands);
            lemma_some_direction_unused(self.players@);
            assert(cands.subrange(0, cands.len() as int) =~= cands);
        }
        let mut k: usize = 0;
        while k < candidates.len()
            invariant
                k <= candidates@.len(),
                candidates@ == cands,
                cands == direction_candidates(self.players@),
                used == used_directions(self.players@),
                self.wf(),
                self.mode == Mode::Ring,
                first_unused(cands, used) is Some,
                first_unused(cands.subrange(k as int, cands.len() as int), used) == first_unused(cands, used),
            decreases candidates@.len() - k,
        {
            let c = candidates[k];
            let mut is_used = false;
            let mut j: usize = 0;
            while j < self.players.len()
                invariant
                    j <= self.players@.len(),
                    used == used_directions(self.players@),
                    is_used == used.take(j as int).contains(c),
                decreases self.players@.len() - j,
            {
                let (x, y) = self.players[j].down_direction;
                proof {
                    assert(used.take(j + 1) =~= used.take(j as int).push((x, y)));
                    lemma_push_contains(used.take(j as int), (x, y), c);
                }
                if x == c.0 && y == c.1 {
                    is_used = true;
                }
                j = j + 1;
            }
            proof {
                assert(used.take(used.len() as int) =~= used);
                let rest = cands.subrange(k as int, cands.len() as int);
                assert(rest[0] == c);
                assert(rest.subrange(1, rest.len() as int) =~= cands.subrange(k + 1, cands.len() as int));
            }
            if !is_used {
                proof {
                    lemma_candidates_are_directions(self.players@, k as int);
                }
                return c;
            }
            k = k + 1;
        }
        proof {
            assert(cands.subrange(cands.len() as int, cands.len() as int) =~= Seq::<WorldPoint>::empty());
        }
        (0, 1)
    }

    /// Adds a player, unless the game is full; returns whether the player was added.
    /// Traditional and bottle games get wider (a bottle game gets a wall between the last
    /// two bottles); in a ring game the new player falls in a new direction (see
    /// `choose_down_direction`) and the player's area is emptied. The player gets a block.
    pub fn add_player(&mut self, client_info: &ClientInfo) -> (r: bool)
        requires
            old(self).wf(),
        ensures
            game_step(*old(self), *final(self)),
            final(self).wf(),
            final(self).mode == old(self).mode,
            final(self).flashing_points == old(self).flashing_points,
            final(self).score == old(self).score,
            final(self).bomb_id_counter == old(self).bomb_id_counter,
            final(self).block_factory == old(self).block_factory,
            r == (old(self).players@.len() < old(self).mode.spec_max_players()),
            !r ==> final(self).players == old(self).players && final(self).landed_rows == old(self).landed_rows,
            r ==> ({
                let n = old(self).players@.len() as int;
                let q = final(self).players@[n];
                &&& final(self).players@.len() == n + 1
                &&& forall|j: int| 0 <= j < n ==> {
                    let a = #[trigger] old(self).players@[j];
                    let b = final(self).players@[j];
                    &&& b.client_id == a.client_id && b.name == a.name && b.color == a.color
                    &&& b.block_or_timer == a.block_or_timer && b.next_block == a.next_block
                    &&& b.block_in_hold == a.block_in_hold && b.fast_down == a.fast_down
                    &&& b.down_direction == a.down_direction
                    &&& b.spawn_point == if old(self).mode == Mode::Ring { a.spawn_point } else { spawn_point_spec(old(self).mode, n + 1, j) }
                }
                &&& q.client_id == client_info.client_id
                &&& q.name@ == client_info.name@
                &&& q.color == client_info.color
                &&& q.block_in_hold is None
                &&& !q.fast_down
                &&& (q.block_or_timer is Block || q.block_or_timer is TimerPending)
                &&& q.down_direction == if old(self).mode == Mode::Ring {
                    first_unused(direction_candidates(old(self).players@), used_directions(old(self).players@)).unwrap()
                } else {
                    (0i16, 1i16)
                }
                &&& q.spawn_point == if old(self).mode == Mode::Ring { (0i32, -18i32) } else { spawn_point_spec(old(self).mode, n + 1, n) }
                &&& final(self).height() == old(self).height()
                &&& forall|y: int| 0 <= y < old(self).height() ==> #[trigger] final(self).rows()[y] == match old(self).mode {
                    Mode::Traditional => old(self).rows()[y] + blank_row(final(self).width() - old(self).width()),
                    Mode::Bottle => if n >= 1 && y >= 9 {
                        (old(self).rows()[y] + blank_row(final(self).width() - old(self).width())).update(10 * n - 1,
                            Some(bottle_wall(old(self).players@[n - 1].color, client_info.color)))
                    } else {
                        old(self).rows()[y] + blank_row(final(self).width() - old(self).width())
                    },
                    Mode::Ring => Seq::new(37, |x: int| if final(self).in_cleared_area(n, x, y) { None } else { old(self).rows()[y][x] }),
                }
            }),
    {
        proof {
            self.lemma_wf_bounds();
        }
        if self.players.len() == self.mode.max_players() {
            return false;
        }
        let player_idx = self.players.len();
        let down_direction = match self.mode {
            Mode::Traditional | Mode::Bottle => (0, 1),
            Mode::Ring => self.choose_down_direction(),
        };
        let spawn_point = match self.mode {
            // a dummy value, changed soon
            Mode::Traditional | Mode::Bottle => (0, 0),
            Mode::Ring => (0, -(RING_OUTER_RADIUS as i32)),
        };
        let old_width: usize = match self.mode {
            Mode::Traditional => if player_idx >= 2 { 7 * player_idx } else { 10 * player_idx },
            Mode::Bottle => if player_idx == 0 { 0 } else { 10 * player_idx - 1 },
            Mode::Ring => 37,
        };
        let new_player = Player::new(spawn_point, client_info, self.score, down_direction, self.block_factory);
        let ghost g0 = *self;
        let ghost np = new_player;
        self.players.push(new_player);
        let ghost pushed = self.players;
        let w: usize = match self.mode {
            Mode::Traditional => if player_idx + 1 >= 2 { 7 * (player_idx + 1) } else { 10 },
            Mode::Bottle => 10 * (player_idx + 1) - 1,
            Mode::Ring => 37,
        };
        if self.mode != Mode::Ring {
            let h = self.landed_rows.len();
            let mut y: usize = 0;
            while y < h
                invariant
                    y <= h == self.landed_rows@.len() == g0.landed_rows@.len(),
                    self.mode == g0.mode,
                    self.mode != Mode::Ring,
                    self.players@.len() == player_idx + 1,
                    player_idx == g0.players@.len(),
                    g0.wf(),
                    old_width == g0.width(),
                    w == self.width(),
                    w >= old_width,
                    self.mode == Mode::Bottle && player_idx >= 1 ==> w >= 10 * player_idx,
                    forall|yy: int| 0 <= yy < y ==> #[trigger] self.landed_rows@[yy]@ == if self.mode == Mode::Bottle && player_idx >= 1 && yy >= 9 {
                        (g0.rows()[yy] + blank_row(w - old_width)).update(10 * player_idx - 1,
                            Some(bottle_wall(g0.players@[player_idx - 1].color, client_info.color)))
                    } else {
                        g0.rows()[yy] + blank_row(w - old_width)
                    },
                    forall|yy: int| y <= yy < h ==> #[trigger] self.landed_rows@[yy] == g0.landed_rows@[yy],
                    self.players@.take(player_idx as int) == g0.players@,
                    self.players == pushed,
                    self.flashing_points == g0.flashing_points,
                    self.score == g0.score,
                    self.bomb_id_counter == g0.bomb_id_counter,
                    self.block_factory == g0.block_factory,
                decreases h - y,
            {
                proof {
                    g0.lemma_wf_bounds();
                    assert(g0.rows()[y as int] == g0.landed_rows@[y as int]@);
                }
                let mut row: Vec<Option<SquareContent>> = Vec::new();
                let mut x: usize = 0;
                while x < w
                    invariant
                        x <= w,
                        y < h == self.landed_rows@.len(),
                        old_width <= w,
                        self.landed_rows@[y as int] == g0.landed_rows@[y as int],
                        g0.landed_rows@[y as int]@.len() == old_width,
                        row@ == (g0.rows()[y as int] + blank_row(w - old_width)).take(x as int),
                        g0.rows()[y as int] == g0.landed_rows@[y as int]@,
                    decreases w - x,
                {
                    if x < old_width {
                        row.push(self.landed_rows[y][x]);
                    } else {
                        row.push(None);
                    }
                    proof {
                        assert(row@ =~= (g0.rows()[y as int] + blank_row(w - old_width)).take(x + 1));
                    }
                    x = x + 1;
                }
                proof {
                    assert(row@ =~= g0.rows()[y as int] + blank_row(w - old_width));
                }
                if self.mode == Mode::Bottle && player_idx >= 1 && y >= BOTTLE_PERSONAL_SPACE_HEIGHT {
                    let left_color = Color { fg: self.players[player_idx - 1].color, bg: 0 };
                    let right_color = Color { fg: client_info.color, bg: 0 };
                    row.set(player_idx * BOTTLE_OUTER_WIDTH - 1, Some(SquareContent::Normal([('|', left_color), ('|', right_color)])));
                    proof {
                        assert(self.players@[player_idx - 1] == g0.players@[player_idx - 1]) by {
                            assert(self.players@.take(player_idx as int)[player_idx - 1] == self.players@[player_idx - 1]);
                        }
                    }
                }
                let ghost before = self.landed_rows@;
                self.landed_rows.set(y, row);
                proof {
                    assert forall|yy: int| 0 <= yy < y + 1 implies #[trigger] self.landed_rows@[yy]@ == if self.mode == Mode::Bottle && player_idx >= 1 && yy >= 9 {
                        (g0.rows()[yy] + blank_row(w - old_width)).update(10 * player_idx - 1,
                            Some(bottle_wall(g0.players@[player_idx - 1].color, client_info.color)))
                    } else {
                        g0.rows()[yy] + blank_row(w - old_width)
                    } by {
                        if yy < y {
                            assert(self.landed_rows@[yy] == before[yy]);
                        }
                    }
                    assert forall|yy: int| y + 1 <= yy < h implies #[trigger] self.landed_rows@[yy] == g0.landed_rows@[yy] by {
                        assert(self.landed_rows@[yy] == before[yy]);
                    }
                }
                y = y + 1;
            }
        }
        proof {
            g0.lemma_wf_bounds();
            assert(self.players == pushed);
            assert(pushed@ == g0.players@.push(np));
            assert forall|i: int| 0 <= i < self.players@.len() implies #[trigger] self.players@[i].wf() by {
                if i < player_idx {
                    assert(self.players@[i] == g0.players@[i]);
                } else {
                    assert(self.players@[i] == np);
                }
            }
            assert(self.wf());
        }
        let ghost g1 = *self;
        self.update_spawn_points();
        let ghost g2 = *self;
        if self.mode == Mode::Ring {
            self.clear_playing_area(player_idx);
        }
        let ghost g3 = *self;
        self.new_block(player_idx);
        proof {
            let n = player_idx as int;
            assert(g1.players@ == g0.players@.push(np));
            assert(g1.players@[n] == np);
            assert(self.players@.len() == n + 1);
            assert(g3.players == g2.players);
            assert forall|j: int| 0 <= j < n implies #[trigger] self.players@[j] == g2.players@[j] by {}
            assert(self.players@[n].client_id == client_info.client_id);
            assert(self.players@[n].name@ == client_info.name@);
            assert(self.players@[n].down_direction == g2.players@[n].down_direction);
            assert(self.players@[n].spawn_point == g2.players@[n].spawn_point);
            assert(self.players@[n].block_in_hold is None);
            assert(self.height() == g0.height());
            let q = self.players@[n];
            assert(q.color == client_info.color);
            assert(!q.fast_down);
            assert(q.block_or_timer is Block || q.block_or_timer is TimerPending);
            assert(q.down_direction == if g0.mode == Mode::Ring {
                first_unused(direction_candidates(g0.players@), used_directions(g0.players@)).unwrap()
            } else {
                (0i16, 1i16)
            });
            assert(q.spawn_point == if g0.mode == Mode::Ring { (0i32, -18i32) } else { spawn_point_spec(g0.mode, n + 1, n) });
            assert forall|j: int| 0 <= j < n implies {
                let a = #[trigger] g0.players@[j];
                let b = self.players@[j];
                &&& b.client_id == a.client_id && b.name == a.name && b.color == a.color
                &&& b.block_or_timer == a.block_or_timer && b.next_block == a.next_block
                &&& b.block_in_hold == a.block_in_hold && b.fast_down == a.fast_down
                &&& b.down_direction == a.down_direction
                &&& b.spawn_point == if g0.mode == Mode::Ring { a.spawn_point } else { spawn_point_spec(g0.mode, n + 1, j) }
            } by {
                assert(g1.players@[j] == g0.players@[j]);
            }
            if self.mode != Mode::Ring {
                assert(g3.landed_rows == g1.landed_rows);
                assert forall|y: int| 0 <= y < g0.height() implies #[trigger] self.rows()[y] == g1.landed_rows@[y]@ by {
                    assert(self.landed_rows == g1.landed_rows);
                }
            } else {
                assert(g1.landed_rows == g0.landed_rows);
                assert forall|y: int| 0 <= y < g0.height() implies #[trigger] self.rows()[y]
                    == Seq::new(37, |x: int| if self.in_cleared_area(n, x, y) { None } else { g0.rows()[y][x] }) by {
                    assert(self.rows()[y] == g3.rows()[y]);
                    assert(g2.rows() == g0.rows());
                    assert(self.in_cleared_area(n, 0, y) == g2.in_cleared_area(n, 0, y));
                    assert(self.rows()[y] =~= Seq::new(37, |x: int| if self.in_cleared_area(n, x, y) { None } else { g0.rows()[y][x] }));
                }
            }
        }
        true
    }

    /// Removes the player with the client id, if there is one. In a traditional or bottle
    /// game the player's columns are removed (see `removed_slice`), the columns on the right
    /// move left, and the spawn points are updated.
    #[verifier::spinoff_prover]
    #[verifier::rlimit(40)]
    pub fn remove_player_if_exists(&mut self, client_id: u64)
        requires
            old(self).wf(),
        ensures
            game_step(*old(self), *final(self)),
            final(self).wf(),
            final(self).mode == old(self).mode,
            final(self).flashing_points == old(self).flashing_points,
            final(self).score == old(self).score,
            final(self).bomb_id_counter == old(self).bomb_id_counter,
            final(self).block_factory == old(self).block_factory,
            ({
                let i = first_player_with(old(self).players@, client_id);
                let n = old(self).players@.len() as int;
                &&& i == -1 ==> final(self).players == old(self).players && final(self).landed_rows == old(self).landed_rows
                &&& i >= 0 ==> {
                    &&& final(self).players@.len() == n - 1
                    &&& forall|j: int| 0 <= j < n - 1 ==> {
                        let a = old(self).players@[if j < i { j } else { j + 1 }];
                        let b = #[trigger] final(self).players@[j];
                        &&& b.client_id == a.client_id && b.name == a.name && b.color == a.color
                        &&& b.down_direction == a.down_direction
                        &&& b.spawn_point == if old(self).mode == Mode::Ring { a.spawn_point } else { spawn_point_spec(old(self).mode, n - 1, j) }
                        &&& if old(self).mode == Mode::Ring {
                            b.block_or_timer == a.block_or_timer && b.next_block == a.next_block
                                && b.block_in_hold == a.block_in_hold && b.fast_down == a.fast_down
                        } else {
                            let (x, w) = removed_slice(old(self).mode, n, i);
                            block_wiped(a, b, x, w)
                        }
                    }
                    &&& final(self).height() == old(self).height()
                    &&& forall|y: int| 0 <= y < old(self).height() ==> #[trigger] final(self).rows()[y] == if old(self).mode == Mode::Ring {
                        old(self).rows()[y]
                    } else {
                        let (x, w) = removed_slice(old(self).mode, n, i);
                        old(self).rows()[y].subrange(0, x) + old(self).rows()[y].subrange(x + w, old(self).width())
                    }
                }
            }),
    {
        proof {
            self.lemma_wf_bounds();
            lemma_first_player_with(self.players@, client_id);
        }
        let found = self.find_player(client_id);
        let i = match found {
            Some(i) => i,
            None => return,
        };
        let n = self.players.len();
        let ghost g0 = *self;
        match self.mode {
            Mode::Traditional => {
                let slice_x = if n >= 2 { 7 * i } else { 10 * i };
                let old_width = if n >= 2 { 7 * n } else { 10 * n };
                self.players.remove(i);
                let new_width = if n - 1 >= 2 { 7 * (n - 1) } else { 10 * (n - 1) };
                proof {
                    assert(self.players@ == g0.players@.remove(i as int));
                    assert forall|j: int| 0 <= j < self.players@.len() implies #[trigger] self.players@[j].wf()
                        && self.players@[j].down_direction == (0i16, 1i16) by {
                        if j < i {
                            assert(self.players@[j] == g0.players@[j]);
                        } else {
                            assert(self.players@[j] == g0.players@[j + 1]);
                        }
                    }
                }
                self.wipe_vertical_slice(slice_x, old_width - new_width, old_width);
            },
            Mode::Bottle => {
                let (slice_x, slice_width): (usize, usize) = if n == 1 {
                    (0, BOTTLE_INNER_WIDTH)
                } else if i == 0 {
                    (0, BOTTLE_OUTER_WIDTH)
                } else if i == n - 1 {
                    // the wall on the left goes too, so the rows keep the width of the game
                    (i * BOTTLE_OUTER_WIDTH - 1, BOTTLE_OUTER_WIDTH)
                } else {
                    (i * BOTTLE_OUTER_WIDTH, BOTTLE_OUTER_WIDTH)
                };
                let old_width = BOTTLE_OUTER_WIDTH * n - 1;
                self.players.remove(i);
                proof {
                    assert(self.players@ == g0.players@.remove(i as int));
                    assert forall|j: int| 0 <= j < self.players@.len() implies #[trigger] self.players@[j].wf()
                        && self.players@[j].down_direction == (0i16, 1i16) by {
                        if j < i {
                            assert(self.players@[j] == g0.players@[j]);
                        } else {
                            assert(self.players@[j] == g0.players@[j + 1]);
                        }
                    }
                }
                self.wipe_vertical_slice(slice_x, slice_width, old_width);
            },
            Mode::Ring => {
                self.players.remove(i);
                proof {
                    assert forall|j: int| 0 <= j < self.players@.len() implies #[trigger] self.players@[j].wf() by {
                        if j < i {
                            assert(self.players@[j] == g0.players@[j]);
                        } else {
                            assert(self.players@[j] == g0.players@[j + 1]);
                        }
                    }
                }
            },
        }
        let ghost g1 = *self;
        self.update_spawn_points();
        proof {
            assert forall|y: int| 0 <= y < g0.height() implies #[trigger] self.rows()[y] == if g0.mode == Mode::Ring {
                g0.rows()[y]
            } else {
                let (x, w) = removed_slice(g0.mode, n as int, i as int);
                g0.rows()[y].subrange(0, x) + g0.rows()[y].subrange(x + w, g0.width())
            } by {
                assert(self.rows()[y] == g1.rows()[y]);
            }
            assert forall|j: int| 0 <= j < n - 1 implies {
                let a = g0.players@[if j < i { j } else { j + 1 }];
                let b = #[trigger] self.players@[j];
                &&& b.client_id == a.client_id && b.name == a.name && b.color == a.color
                &&& b.down_direction == a.down_direction
                &&& b.spawn_point == if g0.mode == Mode::Ring { a.spawn_point } else { spawn_point_spec(g0.mode, n - 1, j) }
                &&& if g0.mode == Mode::Ring {
                    b.block_or_timer == a.block_or_timer && b.next_block == a.next_block
                        && b.block_in_hold == a.block_in_hold && b.fast_down == a.fast_down
                } else {
                    let (x, w) = removed_slice(g0.mode, n as int, i as int);
                    block_wiped(a, b, x, w)
                }
            } by {
                let a = g0.players@[if j < i { j } else { j + 1 }];
                assert(g0.players@.remove(i as int)[j] == a);
                assert(self.players@[j].block_or_timer == g1.players@[j].block_or_timer);
                assert(self.players@[j].next_block == g1.players@[j].next_block);
                assert(self.players@[j].block_in_hold == g1.players@[j].block_in_hold);
                assert(self.players@[j].fast_down == g1.players@[j].fast_down);
            }
        }
    }

    /// The flashing points without those in `points`; the others flash as before.
    fn flashing_without(&self, points: &[WorldPoint]) -> (r: Vec<(WorldPoint, u8)>)
        ensures
            forall|q: WorldPoint| #[trigger] first_flash(r@, q) == if points@.contains(q) {
                None
            } else {
                first_flash(self.flashing_points@, q)
            },
    {
        let ghost all = self.flashing_points@;
        let mut kept: Vec<(WorldPoint, u8)> = Vec::new();
        let mut i: usize = 0;
        while i < self.flashing_points.len()
            invariant
                i <= all.len(),
                all == self.flashing_points@,
                forall|q: WorldPoint| #[trigger] first_flash(kept@, q) == if points@.contains(q) {
                    None
                } else {
                    first_flash(all.take(i as int), q)
                },
            decreases all.len() - i,
        {
            let entry = self.flashing_points[i];
            let ghost before = kept@;
            proof {
                assert(all.take(i + 1).drop_last() =~= all.take(i as int));
                assert(all.take(i + 1).last() == entry);
            }
            if !contains_point(points, entry.0) {
                kept.push(entry);
                proof {
                    assert(kept@.drop_last() =~= before);
                    assert forall|q: WorldPoint| #[trigger] first_flash(kept@, q) == if points@.contains(q) {
                        None
                    } else {
                        first_flash(all.take(i + 1), q)
                    } by {
                        assert(first_flash(before, q) == first_flash(kept@.drop_last(), q));
                        assert(first_flash(all.take(i + 1), q) == match first_flash(all.take(i as int), q) {
                            Some(c) => Some(c),
                            None => if entry.0 == q { Some(entry.1) } else { None },
                        });
                    }
                }
            } else {
                proof {
                    assert forall|q: WorldPoint| #[trigger] first_flash(kept@, q) == if points@.contains(q) {
                        None
                    } else {
                        first_flash(all.take(i + 1), q)
                    } by {
                        assert(first_flash(all.take(i + 1), q) == match first_flash(all.take(i as int), q) {
                            Some(c) => Some(c),
                            None => if entry.0 == q { Some(entry.1) } else { None },
                        });
                    }
                }
            }
            i = i + 1;
        }
        proof {
            assert(all.take(all.len() as int) =~= all);
        }
        kept
    }

    /// Makes the points flash with background color `color` (0 shows them without a
    /// background); the other points flash as before.
    pub fn set_flashing(&mut self, points: &[WorldPoint], color: u8)
        ensures
            game_step(*old(self), *final(self)),
            *final(self) == (Game { flashing_points: final(self).flashing_points, ..*old(self) }),
            forall|q: WorldPoint| #[trigger] first_flash(final(self).flashing_points@, q) == if points@.contains(q) {
                Some(color)
            } else {
                first_flash(old(self).flashing_points@, q)
            },
    {
        let mut flashing = self.flashing_without(points);
        let ghost cleared = flashing@;
        let mut k: usize = 0;
        while k < points.len()
            invariant
                k <= points@.len(),
                forall|q: WorldPoint| #[trigger] first_flash(flashing@, q) == if points@.take(k as int).contains(q) {
                    Some(color)
                } else if points@.contains(q) {
                    None
                } else {
                    first_flash(self.flashing_points@, q)
                },
            decreases points@.len() - k,
        {
            let ghost before = flashing@;
            let p = points[k];
            flashing.push((p, color));
            proof {
                assert(flashing@.drop_last() =~= before);
                assert(points@.take(k + 1) =~= points@.take(k as int).push(p));
                assert forall|q: WorldPoint| #[trigger] first_flash(flashing@, q) == if points@.take(k + 1).contains(q) {
                    Some(color)
                } else if points@.contains(q) {
                    None
                } else {
                    first_flash(self.flashing_points@, q)
                } by {
                    assert(first_flash(flashing@, q) == match first_flash(before, q) {
                        Some(c) => Some(c),
                        None => if p == q { Some(color) } else { None },
                    });
                    if points@.take(k as int).contains(q) {
                        let w = choose|w: int| 0 <= w < points@.take(k as int).len() && #[trigger] points@.take(k as int)[w] == q;
                        assert(points@.take(k + 1)[w] == q);
                    }
                    if points@.take(k + 1).contains(q) && q != p {
                        let w = choose|w: int| 0 <= w < points@.take(k + 1).len() && #[trigger] points@.take(k + 1)[w] == q;
                        assert(points@.take(k as int)[w] == q);
                    }
                    if q == p {
                        assert(points@.take(k + 1)[k as int] == q);
                        assert(points@[k as int] == q);
                    }
                }
            }
            k = k + 1;
        }
        proof {
            assert(points@.take(points@.len() as int) =~= points@);
        }
        self.flashing_points = flashing;
    }

    /// Stops the flashing of the points; the other points flash as before.
    pub fn stop_flashing(&mut self, points: &[WorldPoint])
        ensures
            game_step(*old(self), *final(self)),
            *final(self) == (Game { flashing_points: final(self).flashing_points, ..*old(self) }),
            forall|q: WorldPoint| #[trigger] first_flash(final(self).flashing_points@, q) == if points@.contains(q) {
                None
            } else {
                first_flash(old(self).flashing_points@, q)
            },
    {
        self.flashing_points = self.flashing_without(points);
    }

    /// The kind of the game.
    pub fn mode(&self) -> (r: Mode)
        ensures
            r == self.mode,
    {
        self.mode
    }

    /// The number of players.
    pub fn get_player_count(&self) -> (r: usize)
        ensures
            r == self.players@.len(),
    {
        self.players.len()
    }
}

} // verus!

verus! {

/// Clearing one more row at once gives 10 points more than the previous row did:
/// 10 for one row, 30 for two, 60 for three.
pub proof fn law_clear_score_grows(k: nat)
    ensures
        clear_score(k + 1) == clear_score(k) + 10 * (k + 1),
        clear_score(0) == 0,
        clear_score(1) == 10,
        clear_score(2) == 30,
        clear_score(3) == 60,
{
    assert(5 * (k + 1) * (k + 2) == 5 * k * (k + 1) + 10 * (k + 1)) by (nonlinear_arith);
    assert(5 * 0 * (0 + 1) == 0 && 5 * 1 * (1 + 1) == 10 && 5 * 2 * (2 + 1) == 30 && 5 * 3 * (3 + 1) == 60) by (nonlinear_arith);
}

/// Each player after the first doubles the points for a shared row.
pub proof fn law_player_multiplier_doubles(n: nat)
    requires
        n >= 1,
    ensures
        player_multiplier(n + 1) == 2 * player_multiplier(n),
        player_multiplier(1) == 1,
{
}

/// The ring map looks the same from every side: turning a point by a quarter turn keeps it
/// inside or outside the ring.
pub proof fn law_ring_map_symmetric(x: int, y: int)
    ensures
        ring_valid(x, y) == ring_valid(-y, x),
        ring_valid(x, y) == ring_valid(x, -y),
        ring_valid(x, y) == ring_valid(-x, y),
{
}

/// In ring mode, a y coordinate below the ring comes back inside it; others stay.
pub proof fn law_wrap_around_range(mode: Mode, y: int)
    ensures
        mode == Mode::Ring && y > 0 ==> -18 <= wrap_around_spec(mode, y) <= 18,
        !(mode == Mode::Ring && y > 0) ==> wrap_around_spec(mode, y) == y,
        mode == Mode::Ring && 0 < y <= 18 ==> wrap_around_spec(mode, y) == y,
{
}

/// The content after `n` animation steps.
pub open spec fn animated_times(c: SquareContent, n: nat) -> SquareContent
    decreases n,
{
    if n == 0 {
        c
    } else {
        animated_content(animated_times(c, (n - 1) as nat))
    }
}

proof fn lemma_animated_times(a: u8, n: nat)
    requires
        a < 12,
    ensures
        animated_times(SquareContent::FallingDrill { animation_counter: a }, n)
            == (SquareContent::FallingDrill { animation_counter: ((a + n) % 12) as u8 }),
    decreases n,
{
    if n > 0 {
        lemma_animated_times(a, (n - 1) as nat);
        let m = (a + n - 1) % 12;
        assert((m + 1) % 12 == (a + n) % 12) by {
            vstd::arithmetic::div_mod::lemma_add_mod_noop(a + n - 1, 1, 12);
            vstd::arithmetic::div_mod::lemma_small_mod(1, 12);
        }
    } else {
        vstd::arithmetic::div_mod::lemma_small_mod(a as nat, 12);
    }
}

/// A drill's animation repeats every 12 steps (12 works for pictures with 3 and with 4
/// frames): twelve animation steps give the same content, when the counter is below 12 as
/// it always is. Other contents do not change.
pub proof fn law_animation_period(c: SquareContent)
    requires
        c matches SquareContent::FallingDrill { animation_counter } ==> animation_counter < 12,
    ensures
        animated_times(c, 12) == c,
        !(c is FallingDrill) ==> animated_content(c) == c,
{
    if let SquareContent::FallingDrill { animation_counter } = c {
        lemma_animated_times(animation_counter, 12);
        vstd::arithmetic::div_mod::lemma_add_mod_noop(animation_counter as int, 12, 12);
        vstd::arithmetic::div_mod::lemma_mod_self_0(12);
        vstd::arithmetic::div_mod::lemma_small_mod(animation_counter as nat, 12);
    } else {
        reveal_with_fuel(animated_times, 13);
    }
}

/// Removing full rows of a traditional game keeps the number of rows; the rows that were
/// not full stay in the same order at the bottom, and empty rows fill the top.
pub proof fn law_traditional_removal_keeps_other_rows(rows: Seq<Seq<Option<SquareContent>>>, full: Seq<WorldPoint>, width: int)
    ensures
        traditional_removed(rows, full, width).len() == rows.len(),
        ({
            let kept_rows = kept(rows, row_marked(full, 0), rows.len() as int);
            let removed = removed_count(row_marked(full, 0), rows.len() as int);
            &&& kept_rows.len() + removed == rows.len()
            &&& traditional_removed(rows, full, width).subrange(removed as int, rows.len() as int) == kept_rows
            &&& forall|y: int| 0 <= y < removed ==> #[trigger] traditional_removed(rows, full, width)[y] == blank_row(width)
        }),
{
    lemma_kept_len(rows, row_marked(full, 0), rows.len() as int);
    let kept_rows = kept(rows, row_marked(full, 0), rows.len() as int);
    let removed = removed_count(row_marked(full, 0), rows.len() as int);
    assert(rows.skip(rows.len() as int) =~= Seq::<Seq<Option<SquareContent>>>::empty());
    assert(traditional_removed(rows, full, width).subrange(removed as int, rows.len() as int) =~= kept_rows);
}

} // verus!
