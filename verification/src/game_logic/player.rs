use vstd::prelude::*;

use crate::game_logic::blocks::add_center;
use crate::game_logic::blocks::BlockFactory;
use crate::game_logic::blocks::FallingBlock;
use crate::game_logic::PlayerPoint;
use crate::game_logic::WorldPoint;
use crate::lobby::ClientInfo;
use crate::text::decimal;
use crate::text::push_char;
use crate::text::push_decimal;

verus! {

/// What a player has: a falling block, or a "please wait" counter (pending until it starts).
#[derive(Debug)]
pub enum BlockOrTimer {
    Block(FallingBlock),
    TimerPending,
    Timer(u8),
}

impl BlockOrTimer {
    /// The player coordinates of the falling block, if there is one.
    pub open spec fn spec_coords(&self) -> Seq<PlayerPoint> {
        match self {
            BlockOrTimer::Block(block) => add_center(block.center, block.relative_coords@),
            _ => Seq::empty(),
        }
    }

    /// The player coordinates of the falling block; empty when there is no block.
    pub fn get_coords(&self) -> (r: Vec<PlayerPoint>)
        requires
            self matches BlockOrTimer::Block(block) ==> block.wf(),
        ensures
            r@ == self.spec_coords(),
    {
        match self {
            BlockOrTimer::Block(block) => block.get_coords(),
            _ => Vec::new(),
        }
    }
}

/// A unit vector pointing in one of the four directions.
pub open spec fn is_down_direction(d: WorldPoint) -> bool {
    (d.0 == 0 && (d.1 == 1 || d.1 == -1)) || (d.1 == 0 && (d.0 == 1 || d.0 == -1))
}

/// A point converted from player coordinates to world coordinates: both coordinates are
/// first truncated to `i16`, and then turned so that (0, 1) becomes `down`.
/// With `down == (0, 1)` nothing changes.
pub open spec fn player_to_world_spec(down: WorldPoint, point: PlayerPoint) -> WorldPoint {
    let x = point.0 as i16;
    let y = point.1 as i16;
    ((x * down.1 + y * down.0) as i16, (y * down.1 - x * down.0) as i16)
}

/// A point converted from world coordinates to the coordinates of a player going in
/// direction `down`: the inverse of `player_to_world_spec` for points that fit in `i16`.
pub open spec fn world_to_player_spec(down: WorldPoint, point: WorldPoint) -> PlayerPoint {
    ((point.0 * down.1 - point.1 * down.0) as i32, (point.0 * down.0 + point.1 * down.1) as i32)
}

/// The name as shown in the game: with the counter in front while the player waits.
pub open spec fn name_display(name: Seq<char>, block_or_timer: BlockOrTimer) -> Seq<char> {
    match block_or_timer {
        BlockOrTimer::Timer(n) => seq!['['] + name + seq![']', ' '] + decimal(n as nat),
        _ => name,
    }
}

/// How many characters `name_display` adds to the name.
pub open spec fn name_display_extra(block_or_timer: BlockOrTimer) -> nat {
    match block_or_timer {
        BlockOrTimer::Timer(n) => 3 + decimal(n as nat).len(),
        _ => 0,
    }
}

/// The counter adds at most 6 characters, and the shown name has the length of the kept
/// part of the name plus those.
pub proof fn lemma_name_display_len(name: Seq<char>, block_or_timer: BlockOrTimer)
    ensures
        name_display_extra(block_or_timer) <= 6,
        name_display(name, block_or_timer).len() == name.len() + name_display_extra(block_or_timer),
{
    if let BlockOrTimer::Timer(n) = block_or_timer {
        reveal_with_fuel(decimal, 3);
        assert(n as nat / 10 / 10 < 10);
    }
}

/// A player taking part in a game.
#[derive(Debug)]
pub struct Player {
    pub client_id: u64,
    pub name: String,
    pub color: u8,
    pub spawn_point: PlayerPoint,
    pub block_or_timer: BlockOrTimer,
    pub next_block: FallingBlock,
    pub block_in_hold: Option<FallingBlock>,
    pub fast_down: bool,
    /// This vector always has length 1.
    pub down_direction: WorldPoint,
}

impl Player {
    /// Every block of the player is well formed and not empty, the spawn point is not too far
    /// away, and the down direction is a unit vector.
    pub open spec fn wf(&self) -> bool {
        &&& match self.block_or_timer {
            BlockOrTimer::Block(b) => b.wf() && b.relative_coords@.len() > 0,
            _ => true,
        }
        &&& self.next_block.wf()
        &&& self.next_block.relative_coords@.len() > 0
        &&& match self.block_in_hold {
            Some(b) => b.wf() && b.relative_coords@.len() > 0,
            None => true,
        }
        &&& -0x4000_0000 <= self.spawn_point.0 <= 0x4000_0000
        &&& -0x4000_0000 <= self.spawn_point.1 <= 0x4000_0000
        &&& is_down_direction(self.down_direction)
    }

    /// A new player with two blocks from the factory (the first one not yet spawned).
    pub fn new(
        spawn_point: PlayerPoint,
        client_info: &ClientInfo,
        current_score: usize,
        down_direction: WorldPoint,
        block_factory: BlockFactory,
    ) -> (r: Player)
        requires
            -0x4000_0000 <= spawn_point.0 <= 0x4000_0000,
            -0x4000_0000 <= spawn_point.1 <= 0x4000_0000,
            is_down_direction(down_direction),
        ensures
            r.wf(),
            r.client_id == client_info.client_id,
            r.name@ == client_info.name@,
            r.color == client_info.color,
            r.spawn_point == spawn_point,
            r.block_or_timer is Block,
            r.block_in_hold is None,
            !r.fast_down,
            r.down_direction == down_direction,
    {
        Player {
            client_id: client_info.client_id,
            name: client_info.name.clone(),
            color: client_info.color,
            spawn_point: spawn_point,
            block_or_timer: BlockOrTimer::Block(block_factory.make(current_score)),
            next_block: block_factory.make(current_score),
            block_in_hold: None,
            fast_down: false,
            down_direction,
        }
    }

    /// The name as shown in the game, its end cut off to fit in `max_len` characters.
    pub open spec fn name_string_spec(&self, max_len: nat) -> Seq<char> {
        let keep = if self.name@.len() + name_display_extra(self.block_or_timer) <= max_len {
            self.name@.len() as int
        } else {
            max_len - name_display_extra(self.block_or_timer)
        };
        name_display(self.name@.take(keep), self.block_or_timer)
    }

    /// The name as shown in the game, shortened from the end until it fits in `max_len`
    /// characters.
    pub fn get_name_string(&self, max_len: usize) -> (r: String)
        requires
            name_display_extra(self.block_or_timer) <= max_len,
        ensures
            r@ == self.name_string_spec(max_len as nat),
    {
        broadcast use vstd::string::group_string_axioms;
        let mut chars: Vec<char> = Vec::new();
        for c in it: self.name.as_str().chars()
            invariant
                it.seq() == self.name@,
                chars@ == self.name@.take(it.index() as int),
        {
            chars.push(c);
            proof {
                assert(self.name@.take(it.index() + 1) =~= self.name@.take(it.index() as int).push(c));
            }
        }
        proof {
            assert(self.name@.take(self.name@.len() as int) =~= self.name@);
        }
        let extra: usize = match self.block_or_timer {
            BlockOrTimer::Timer(n) => {
                proof {
                    reveal_with_fuel(decimal, 3);
                    assert(n as nat / 10 / 10 < 10);
                }
                if n < 10 {
                    4
                } else if n < 100 {
                    5
                } else {
                    6
                }
            },
            _ => 0,
        };
        let keep = if chars.len() <= max_len - extra {
            chars.len()
        } else {
            max_len - extra
        };
        let mut r = String::new();
        if let BlockOrTimer::Timer(_) = self.block_or_timer {
            push_char(&mut r, '[');
        }
        let ghost start = r@;
        let mut i: usize = 0;
        while i < keep
            invariant
                i <= keep <= chars@.len(),
                r@ == start + chars@.take(i as int),
            decreases keep - i,
        {
            push_char(&mut r, chars[i]);
            proof {
                assert(chars@.take(i + 1) =~= chars@.take(i as int).push(chars@[i as int]));
            }
            i = i + 1;
        }
        if let BlockOrTimer::Timer(n) = self.block_or_timer {
            push_char(&mut r, ']');
            push_char(&mut r, ' ');
            push_decimal(&mut r, n as u64);
        }
        proof {
            assert(chars@.take(keep as int) =~= self.name@.take(keep as int));
            match self.block_or_timer {
                BlockOrTimer::Timer(n) => {
                    assert(r@ =~= name_display(self.name@.take(keep as int), self.block_or_timer));
                },
                _ => {
                    assert(r@ =~= name_display(self.name@.take(keep as int), self.block_or_timer));
                },
            }
        }
        r
    }

    /// Converts a point from world coordinates to this player's coordinates.
    pub fn world_to_player(&self, point: WorldPoint) -> (r: PlayerPoint)
        requires
            is_down_direction(self.down_direction),
        ensures
            r == world_to_player_spec(self.down_direction, point),
    {
        let (x, y) = point;
        let (down_x, down_y) = self.down_direction;
        let (x, y) = (x as i32, y as i32);
        if down_x == 0 && down_y == 1 {
            (x, y)
        } else if down_x == 0 {
            (-x, -y)
        } else if down_x == 1 {
            (-y, x)
        } else {
            (y, -x)
        }
    }

    /// Converts a point from this player's coordinates to world coordinates (they differ
    /// only in ring mode).
    pub fn player_to_world(&self, point: PlayerPoint) -> (r: WorldPoint)
        ensures
            r == player_to_world_spec(self.down_direction, point),
    {
        let (x, y) = point;
        let x = #[verifier::truncate] (x as i16);
        let y = #[verifier::truncate] (y as i16);
        let (down_x, down_y) = self.down_direction;
        // complex number multiplication, or a rotation matrix
        let (x, y, dx, dy) = (x as i64, y as i64, down_x as i64, down_y as i64);
        proof {
            assert(-0x4000_0000 <= x * dy <= 0x4000_0000) by (nonlinear_arith)
                requires -0x8000 <= x <= 0x8000, -0x8000 <= dy <= 0x8000;
            assert(-0x4000_0000 <= y * dx <= 0x4000_0000) by (nonlinear_arith)
                requires -0x8000 <= y <= 0x8000, -0x8000 <= dx <= 0x8000;
            assert(-0x4000_0000 <= x * dx <= 0x4000_0000) by (nonlinear_arith)
                requires -0x8000 <= x <= 0x8000, -0x8000 <= dx <= 0x8000;
            assert(-0x4000_0000 <= y * dy <= 0x4000_0000) by (nonlinear_arith)
                requires -0x8000 <= y <= 0x8000, -0x8000 <= dy <= 0x8000;
        }
        let wx = #[verifier::truncate] ((x * dy + y * dx) as i16);
        let wy = #[verifier::truncate] ((y * dy - x * dx) as i16);
        (wx, wy)
    }
}

} // verus!

verus! {

/// With the usual down direction (0, 1), player coordinates and world coordinates are the
/// same (for points that fit in `i16`).
pub proof fn law_player_to_world_identity(point: PlayerPoint)
    requires
        i16::MIN <= point.0 <= i16::MAX,
        i16::MIN <= point.1 <= i16::MAX,
    ensures
        player_to_world_spec((0i16, 1i16), point) == (point.0 as i16, point.1 as i16),
{
}

/// Converting a point to world coordinates and back gives the point again.
pub proof fn law_world_to_player_inverts(down: WorldPoint, point: PlayerPoint)
    requires
        is_down_direction(down),
        -i16::MAX <= point.0 <= i16::MAX,
        -i16::MAX <= point.1 <= i16::MAX,
    ensures
        world_to_player_spec(down, player_to_world_spec(down, point)) == point,
{
}

/// The value of `player_to_world_spec` for each of the four directions.
pub proof fn lemma_player_to_world_cases(down: WorldPoint, point: PlayerPoint)
    requires
        is_down_direction(down),
        -i16::MAX <= point.0 <= i16::MAX,
        -i16::MAX <= point.1 <= i16::MAX,
    ensures
        ({
            let x = point.0 as int;
            let y = point.1 as int;
            player_to_world_spec(down, point) == if down == (0i16, 1i16) {
                (x as i16, y as i16)
            } else if down == (0i16, -1i16) {
                ((-x) as i16, (-y) as i16)
            } else if down == (1i16, 0i16) {
                (y as i16, (-x) as i16)
            } else {
                ((-y) as i16, x as i16)
            }
        }),
{
    let x = point.0 as int;
    let y = point.1 as int;
    let a = point.0 as i16;
    let b = point.1 as i16;
    assert(a == x && b == y);
    let d0 = down.0;
    let d1 = down.1;
    assert(a * d1 + b * d0 == x * d1 + y * d0);
    assert(b * d1 - a * d0 == y * d1 - x * d0);
    if d0 == 0 && d1 == 1 {
        assert(x * d1 + y * d0 == x && y * d1 - x * d0 == y) by (nonlinear_arith)
            requires d0 == 0, d1 == 1;
    } else if d0 == 0 && d1 == -1 {
        assert(x * d1 + y * d0 == -x && y * d1 - x * d0 == -y) by (nonlinear_arith)
            requires d0 == 0, d1 == -1;
    } else if d0 == 1 {
        assert(x * d1 + y * d0 == y && y * d1 - x * d0 == -x) by (nonlinear_arith)
            requires d0 == 1, d1 == 0;
    } else {
        assert(x * d1 + y * d0 == -y && y * d1 - x * d0 == x) by (nonlinear_arith)
            requires d0 == -1, d1 == 0;
    }
}

/// Turning the down direction by a quarter turn turns every world point the same way:
/// with (x, y) turned to (-y, x).
pub proof fn law_player_to_world_turns(down: WorldPoint, point: PlayerPoint)
    requires
        is_down_direction(down),
        -i16::MAX <= point.0 <= i16::MAX,
        -i16::MAX <= point.1 <= i16::MAX,
    ensures
        ({
            let turned_down = ((-down.1) as i16, down.0);
            let w = player_to_world_spec(down, point);
            player_to_world_spec(turned_down, point) == ((-w.1) as i16, w.0)
        }),
{
    let t = ((-down.1) as i16, down.0);
    lemma_player_to_world_cases(down, point);
    lemma_player_to_world_cases(t, point);
}

} // verus!
