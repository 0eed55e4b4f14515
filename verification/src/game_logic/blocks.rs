use vstd::prelude::*;

use crate::escapes::Color;
use crate::game_logic::is_unit_direction;
use crate::game_logic::BlockRelativeCoords;
use crate::game_logic::PlayerPoint;
use crate::random::random_below;
use crate::random::random_choice;
use crate::random::weight_sum;
use crate::random::weighted_random_index;
use crate::render::RenderBuffer;
use crate::text::decimal;
use crate::text::push_char;
use crate::text::push_decimal;

verus! {

/// Which way a drill points on the screen of the player who looks at it.
#[derive(Copy, Clone, Debug, PartialEq, Eq, Structural)]
pub enum DrillDirection {
    Upwards,
    Downwards,
    RightToLeft,
    LeftToRight,
}

/// Index of a drill direction in the picture table.
pub open spec fn drill_picture_index(d: DrillDirection) -> int {
    match d {
        DrillDirection::Upwards => 0,
        DrillDirection::Downwards => 1,
        DrillDirection::RightToLeft => 2,
        DrillDirection::LeftToRight => 3,
    }
}

/// How many animation pictures a drill pointing in direction `p` has.
pub open spec fn drill_picture_count(p: int) -> int {
    if p < 2 {
        4
    } else {
        3
    }
}

/// How many rows a drill picture in direction `p` has.
pub open spec fn drill_picture_height(p: int) -> int {
    if p < 2 {
        5
    } else {
        2
    }
}

/// How many characters a row of a drill picture in direction `p` has.
pub open spec fn drill_picture_width(p: int) -> int {
    if p < 2 {
        4
    } else {
        10
    }
}

/// Row `row` of animation picture `a` of a drill pointing in direction `p`.
pub open spec fn drill_row_spec(p: int, a: int, row: int) -> Seq<char> {
    if p == 0 {
        if row == 0 {
            r" /\ "@
        } else {
            vertical_drill_body((row - 1 + 3 - a) % 4)
        }
    } else if p == 1 {
        if row == 4 {
            r" \/ "@
        } else {
            vertical_drill_body((row + a) % 4)
        }
    } else if p == 2 {
        if row == 0 {
            r" .--------"@
        } else if a == 0 {
            r"'._\__\__\"@
        } else if a == 1 {
            r"'.__\__\__"@
        } else {
            r"'.\__\__\_"@
        }
    } else {
        if row == 0 {
            r"--------. "@
        } else if a == 0 {
            r"_/__/__/.'"@
        } else if a == 1 {
            r"/__/__/_.'"@
        } else {
            r"__/__/__.'"@
        }
    }
}

/// The four body rows of a vertical drill, in the order in which they scroll.
pub open spec fn vertical_drill_body(i: int) -> Seq<char> {
    if i == 0 {
        r"| /|"@
    } else if i == 1 {
        r"|/ |"@
    } else if i == 2 {
        r"| .|"@
    } else {
        r"|. |"@
    }
}

proof fn lemma_drill_row_lengths(p: int, a: int, row: int)
    requires
        0 <= p < 4,
        0 <= a < drill_picture_count(p),
        0 <= row < drill_picture_height(p),
    ensures
        drill_row_spec(p, a, row).len() == drill_picture_width(p),
{
    reveal_strlit(r" /\ ");
    reveal_strlit(r" \/ ");
    reveal_strlit(r"| /|");
    reveal_strlit(r"|/ |");
    reveal_strlit(r"| .|");
    reveal_strlit(r"|. |");
    reveal_strlit(r" .--------");
    reveal_strlit(r"'._\__\__\");
    reveal_strlit(r"'.__\__\__");
    reveal_strlit(r"'.\__\__\_");
    reveal_strlit(r"--------. ");
    reveal_strlit(r"_/__/__/.'");
    reveal_strlit(r"/__/__/_.'");
    reveal_strlit(r"__/__/__.'");
}

fn vertical_drill_body_exec(i: usize) -> (r: &'static str)
    requires
        i < 4,
    ensures
        r@ == vertical_drill_body(i as int),
{
    if i == 0 {
        r"| /|"
    } else if i == 1 {
        r"|/ |"
    } else if i == 2 {
        r"| .|"
    } else {
        r"|. |"
    }
}

fn drill_row(p: usize, a: usize, row: usize) -> (r: &'static str)
    requires
        p < 4,
        a < drill_picture_count(p as int),
        row < drill_picture_height(p as int),
    ensures
        r@ == drill_row_spec(p as int, a as int, row as int),
        r@.len() == drill_picture_width(p as int),
{
    proof {
        lemma_drill_row_lengths(p as int, a as int, row as int);
    }
    if p == 0 {
        if row == 0 {
            r" /\ "
        } else {
            vertical_drill_body_exec((row - 1 + 3 - a) % 4)
        }
    } else if p == 1 {
        if row == 4 {
            r" \/ "
        } else {
            vertical_drill_body_exec((row + a) % 4)
        }
    } else if p == 2 {
        if row == 0 {
            r" .--------"
        } else if a == 0 {
            r"'._\__\__\"
        } else if a == 1 {
            r"'.__\__\__"
        } else {
            r"'.\__\__\_"
        }
    } else {
        if row == 0 {
            r"--------. "
        } else if a == 0 {
            r"_/__/__/.'"
        } else if a == 1 {
            r"/__/__/_.'"
        } else {
            r"__/__/__.'"
        }
    }
}

/// How a drill owned by a player going in direction `driller` looks to a player going
/// in direction `viewer`.
pub open spec fn drill_direction_spec(viewer: (i8, i8), driller: (i8, i8)) -> DrillDirection {
    let (x, y) = viewer;
    if driller == (x, y) {
        DrillDirection::Downwards
    } else if driller == (y, (-x) as i8) {
        DrillDirection::LeftToRight
    } else if driller == ((-x) as i8, (-y) as i8) {
        DrillDirection::Upwards
    } else {
        DrillDirection::RightToLeft
    }
}

fn choose_drill_direction(viewer_direction: (i8, i8), driller_direction: (i8, i8)) -> (r:
    DrillDirection)
    requires
        is_unit_direction(viewer_direction),
        is_unit_direction(driller_direction),
    ensures
        r == drill_direction_spec(viewer_direction, driller_direction),
{
    let (x, y) = viewer_direction;
    let (dx, dy) = driller_direction;
    if dx == x && dy == y {
        DrillDirection::Downwards
    } else if dx == y && dy == -x {
        DrillDirection::LeftToRight
    } else if dx == -x && dy == -y {
        DrillDirection::Upwards
    } else {
        DrillDirection::RightToLeft
    }
}

/// Index of a unit direction: (0,-1), (0,1), (-1,0), (1,0) become 0, 1, 2, 3.
pub open spec fn direction_index(d: (i8, i8)) -> int {
    if d == (0i8, -1i8) {
        0
    } else if d == (0i8, 1i8) {
        1
    } else if d == (-1i8, 0i8) {
        2
    } else {
        3
    }
}

fn direction_to_0123(direction: (i8, i8)) -> (r: usize)
    requires
        is_unit_direction(direction),
    ensures
        r == direction_index(direction),
        r < 4,
{
    let (dx, dy) = direction;
    if dx == 0 && dy == -1 {
        0
    } else if dx == 0 && dy == 1 {
        1
    } else if dx == -1 && dy == 0 {
        2
    } else {
        3
    }
}

/// The relative coordinates that a square of a drill can have.
pub open spec fn in_drill_shape(c: BlockRelativeCoords) -> bool {
    -1 <= c.0 <= 0 && -2 <= c.1 <= 2
}

/// Where, in a picture of a drill pointing in direction `d`, the square at relative
/// coordinates `c` is drawn: (column of its first character, row).
pub open spec fn drill_picture_place(d: DrillDirection, c: BlockRelativeCoords) -> (int, int) {
    let rx = c.0 + 1;
    let ry = c.1 + 2;
    let (px, py) = match d {
        DrillDirection::Downwards => (rx, ry),
        DrillDirection::Upwards => (1 - rx, 4 - ry),
        DrillDirection::RightToLeft => (4 - ry, rx),
        DrillDirection::LeftToRight => (ry, 1 - rx),
    };
    (2 * px, py)
}

/// The two characters of the square at `c` in animation frame `counter` of a drill
/// pointing in direction `d`.
pub open spec fn drill_text_spec(counter: u8, d: DrillDirection, c: BlockRelativeCoords) -> Seq<
    char,
> {
    let p = drill_picture_index(d);
    let a = counter as int % drill_picture_count(p);
    let (x, y) = drill_picture_place(d, c);
    drill_row_spec(p, a, y).subrange(x, x + 2)
}

fn get_drill_text(animation_counter: u8, direction: DrillDirection, relative_coords:
    BlockRelativeCoords) -> (r: [char; 2])
    requires
        in_drill_shape(relative_coords),
    ensures
        r@ == drill_text_spec(animation_counter, direction, relative_coords),
{
    let p: usize = match direction {
        DrillDirection::Upwards => 0,
        DrillDirection::Downwards => 1,
        DrillDirection::RightToLeft => 2,
        DrillDirection::LeftToRight => 3,
    };
    let count: usize = if p < 2 {
        4
    } else {
        3
    };
    let a = (animation_counter as usize) % count;
    // nonnegative values are easier to think about
    let (relative_x, relative_y) = relative_coords;
    let rx = relative_x + 1;
    let ry = relative_y + 2;
    let (rotated_x, rotated_y) = match direction {
        DrillDirection::Downwards => (rx, ry),
        DrillDirection::Upwards => (1 - rx, 4 - ry),
        DrillDirection::RightToLeft => (4 - ry, rx),
        DrillDirection::LeftToRight => (ry, 1 - rx),
    };
    let x_index = (2 * rotated_x) as usize;
    let y_index = rotated_y as usize;
    let row = drill_row(p, a, y_index);
    let r = [row.get_char(x_index), row.get_char(x_index + 1)];
    proof {
        assert(r@ =~= drill_text_spec(animation_counter, direction, relative_coords));
    }
    r
}

/// What occupies a square of the playing area.
#[derive(Copy, Clone, Debug)]
pub enum SquareContent {
    /// Two characters with their colors.
    Normal([(char, Color); 2]),
    /// A bomb that explodes when its timer reaches zero; the id is given when it starts ticking.
    Bomb { timer: u8, id: Option<u64> },
    /// A drill that is still falling; the counter selects its animation picture.
    FallingDrill { animation_counter: u8 },
    /// A landed drill: its text as seen by players going in each direction
    /// (indexed by `direction_index`).
    LandedDrill { texts_by_viewer_direction: [[char; 2]; 4] },
}

/// A landed drill looks like the falling drill it came from: for every viewer, the two
/// characters drawn are those of the falling drill at the place where the square was in its
/// block (see `SquareContent::get_landed_content`); only the background turns gray.
pub proof fn law_landing_keeps_drill_picture(landed: SquareContent, counter: u8, c: BlockRelativeCoords, driller: (i8, i8),
    viewer: (i8, i8), has_color: bool)
    requires
        is_unit_direction(viewer),
        landed is LandedDrill,
        forall|i: int| 0 <= i < 4 ==> #[trigger] landed->texts_by_viewer_direction[i]@ == SquareContent::landed_drill_texts(counter, c, driller)[i],
    ensures
        landed.render_chars(None, viewer, has_color) == (SquareContent::FallingDrill { animation_counter: counter }).render_chars(
            Some((c, driller)), viewer, has_color),
{
    let i = direction_index(viewer);
    assert(landed->texts_by_viewer_direction[i]@ == SquareContent::landed_drill_texts(counter, c, driller)[i]);
}

/// The picture of a falling drill repeats as its animation counter grows: every 4 steps
/// where the viewer sees it go up or down (it falls the viewer's way or the opposite way),
/// every 3 steps where it goes sideways.
pub proof fn law_drill_picture_period(a: u8, b: u8, c: BlockRelativeCoords, driller: (i8, i8), viewer: (i8, i8), has_color: bool)
    requires
        is_unit_direction(viewer),
        is_unit_direction(driller),
        ({
            let k = if driller == viewer || driller == ((-viewer.0) as i8, (-viewer.1) as i8) { 4int } else { 3int };
            a as int % k == b as int % k
        }),
    ensures
        (SquareContent::FallingDrill { animation_counter: a }).render_chars(Some((c, driller)), viewer, has_color)
            == (SquareContent::FallingDrill { animation_counter: b }).render_chars(Some((c, driller)), viewer, has_color),
{
}

impl SquareContent {
    pub open spec fn spec_is_drill(&self) -> bool {
        self is FallingDrill || self is LandedDrill
    }

    pub open spec fn spec_is_bomb(&self) -> bool {
        self is Bomb
    }

    /// A square of two spaces in the given color.
    pub fn with_color(color: Color) -> (r: Self)
        ensures
            r == SquareContent::Normal([(' ', color), (' ', color)]),
    {
        SquareContent::Normal([(' ', color), (' ', color)])
    }

    #[verifier::when_used_as_spec(spec_is_bomb)]
    pub fn is_bomb(&self) -> (r: bool)
        ensures
            r == self.spec_is_bomb(),
    {
        matches!(self, SquareContent::Bomb { .. })
    }

    #[verifier::when_used_as_spec(spec_is_drill)]
    pub fn is_drill(&self) -> (r: bool)
        ensures
            r == self.spec_is_drill(),
    {
        matches!(self, SquareContent::FallingDrill { .. } | SquareContent::LandedDrill { .. })
    }

    /// A drill can drill through anything except other drills.
    pub fn can_drill(&self, other: &SquareContent) -> (r: bool)
        ensures
            r == (self.spec_is_drill() && !other.spec_is_drill()),
    {
        self.is_drill() && !other.is_drill()
    }

    /// Advances the animation of a falling drill (12 steps, then it starts over);
    /// returns whether there was anything to animate.
    pub fn animate(&mut self) -> (r: bool)
        ensures
            r == (*old(self) is FallingDrill),
            match *old(self) {
                SquareContent::FallingDrill { animation_counter } => *final(self)
                    == SquareContent::FallingDrill {
                    animation_counter: ((animation_counter + 1) % 12) as u8,
                },
                _ => *final(self) == *old(self),
            },
    {
        match self {
            SquareContent::FallingDrill { animation_counter } => {
                // 12 won't mess up animations with 3 or 4 pictures
                *animation_counter = ((*animation_counter as u32 + 1) % 12) as u8;
                true
            },
            _ => false,
        }
    }

    /// The texts of a landed drill, as players going in each direction see it.
    pub open spec fn landed_drill_texts(counter: u8, c: BlockRelativeCoords, player_direction: (
        i8,
        i8,
    )) -> Seq<Seq<char>> {
        Seq::new(
            4,
            |i: int|
                {
                    let viewer = if i == 0 {
                        (0i8, -1i8)
                    } else if i == 1 {
                        (0i8, 1i8)
                    } else if i == 2 {
                        (-1i8, 0i8)
                    } else {
                        (1i8, 0i8)
                    };
                    drill_text_spec(counter, drill_direction_spec(viewer, player_direction), c)
                },
        )
    }

    /// What this square becomes when its block lands: a falling drill turns into a landed
    /// drill that keeps looking the same to every player; everything else stays as it is.
    pub fn get_landed_content(&self, relative_coords: BlockRelativeCoords, player_direction: (
        i8,
        i8,
    )) -> (r: Self)
        requires
            self is FallingDrill ==> in_drill_shape(relative_coords),
            is_unit_direction(player_direction),
        ensures
            match *self {
                SquareContent::FallingDrill { animation_counter } => r is LandedDrill && (forall|
                    i: int,
                |
                    0 <= i < 4 ==> #[trigger] r->texts_by_viewer_direction[i]@
                        == Self::landed_drill_texts(animation_counter, relative_coords, player_direction)[i]),
                _ => r == *self,
            },
    {
        match self {
            SquareContent::FallingDrill { animation_counter } => {
                let mut texts: [[char; 2]; 4] = [[' ', ' '], [' ', ' '], [' ', ' '], [' ', ' ']];
                let viewers: [(i8, i8); 4] = [(-1, 0), (1, 0), (0, -1), (0, 1)];
                let mut k: usize = 0;
                while k < 4
                    invariant
                        0 <= k <= 4,
                        viewers@ == seq![(-1i8, 0i8), (1i8, 0i8), (0i8, -1i8), (0i8, 1i8)],
                        in_drill_shape(relative_coords),
                        is_unit_direction(player_direction),
                        forall|j: int|
                            0 <= j < k ==> #[trigger] texts@[direction_index(viewers@[j])]@
                                == Self::landed_drill_texts(
                                *animation_counter,
                                relative_coords,
                                player_direction,
                            )[direction_index(viewers@[j])],
                    decreases 4 - k,
                {
                    let viewer_dir = viewers[k];
                    let idx = direction_to_0123(viewer_dir);
                    let text = get_drill_text(
                        *animation_counter,
                        choose_drill_direction(viewer_dir, player_direction),
                        relative_coords,
                    );
                    texts[idx] = text;
                    k = k + 1;
                }
                proof {
                    assert forall|i: int| 0 <= i < 4 implies #[trigger] texts@[i]@
                        == Self::landed_drill_texts(
                        *animation_counter,
                        relative_coords,
                        player_direction,
                    )[i] by {
                        let j = if i == 0 {
                            2int
                        } else if i == 1 {
                            3int
                        } else if i == 2 {
                            0int
                        } else {
                            1int
                        };
                        assert(direction_index(viewers@[j]) == i);
                    }
                }
                SquareContent::LandedDrill { texts_by_viewer_direction: texts }
            },
            other => *other,
        }
    }

    /// The color of the predicted landing place: yellow for bombs with more than 3 seconds
    /// left, red for bombs about to explode, the default color otherwise.
    pub fn get_trace_color(&self) -> (r: Color)
        ensures
            r == match *self {
                SquareContent::Bomb { timer, .. } => if timer > 3 {
                    Color::spec_yellow_foreground()
                } else {
                    Color::spec_red_foreground()
                },
                _ => Color::spec_default_colors(),
            },
    {
        match self {
            SquareContent::Bomb { timer, .. } => {
                if *timer > 3 {
                    Color::yellow_foreground()
                } else {
                    Color::red_foreground()
                }
            },
            _ => Color::default_colors(),
        }
    }

    /// A bomb's timer as shown: its decimal digits, padded with spaces to 2 characters.
    pub open spec fn bomb_text(timer: u8) -> Seq<char> {
        let d = decimal(timer as nat);
        if d.len() < 2 {
            d + Seq::new((2 - d.len()) as nat, |i: int| ' ')
        } else {
            d
        }
    }

    /// The characters that `render` draws.
    pub open spec fn render_chars(
        &self,
        falling_block_data: Option<(BlockRelativeCoords, (i8, i8))>,
        viewer_direction: (i8, i8),
        has_color: bool,
    ) -> Seq<char> {
        match *self {
            SquareContent::Normal(cc) => if cc[0].0 == ' ' && cc[1].0 == ' ' && !has_color {
                seq!['(', ')']
            } else {
                seq![cc[0].0, cc[1].0]
            },
            SquareContent::Bomb { timer, .. } => Self::bomb_text(timer),
            SquareContent::FallingDrill { animation_counter } => {
                let (relative_coords, driller_direction) = falling_block_data->0;
                drill_text_spec(
                    animation_counter,
                    drill_direction_spec(viewer_direction, driller_direction),
                    relative_coords,
                )
            },
            SquareContent::LandedDrill { texts_by_viewer_direction } => texts_by_viewer_direction[direction_index(
                viewer_direction,
            )]@,
        }
    }

    /// The colors of the characters that `render` draws.
    pub open spec fn render_colors(&self, has_color: bool) -> Seq<Color> {
        match *self {
            SquareContent::Normal(cc) => if cc[0].0 == ' ' && cc[1].0 == ' ' && !has_color {
                seq![Color::spec_default_colors(), Color::spec_default_colors()]
            } else {
                seq![cc[0].1, cc[1].1]
            },
            SquareContent::Bomb { timer, .. } => Seq::new(
                Self::bomb_text(timer).len(),
                |i: int| self.get_trace_color_spec(),
            ),
            SquareContent::FallingDrill { .. } => seq![
                Color::spec_default_colors(),
                Color::spec_default_colors(),
            ],
            SquareContent::LandedDrill { .. } => seq![
                Color::spec_gray_background(),
                Color::spec_gray_background(),
            ],
        }
    }

    pub open spec fn get_trace_color_spec(&self) -> Color {
        match *self {
            SquareContent::Bomb { timer, .. } => if timer > 3 {
                Color::spec_yellow_foreground()
            } else {
                Color::spec_red_foreground()
            },
            _ => Color::spec_default_colors(),
        }
    }

    /// How many cells `render` draws (two, or three for a bomb timer of three digits).
    pub fn render_width(
        &self,
        falling_block_data: Option<(BlockRelativeCoords, (i8, i8))>,
        viewer_direction: (i8, i8),
        has_color: bool,
    ) -> (r: usize)
        requires
            self.spec_is_drill() ==> is_unit_direction(viewer_direction),
            *self is FallingDrill ==> falling_block_data is Some && in_drill_shape(
                falling_block_data.unwrap().0,
            ) && is_unit_direction(falling_block_data.unwrap().1),
        ensures
            r == self.render_chars(falling_block_data, viewer_direction, has_color).len(),
            2 <= r <= 3,
    {
        match self {
            SquareContent::Normal(_) => 2,
            SquareContent::Bomb { timer, .. } => {
                let mut text = String::new();
                push_decimal(&mut text, *timer as u64);
                proof {
                    reveal_with_fuel(decimal, 3);
                    assert(*timer as nat / 10 / 10 < 10);
                    assert(text@ =~= decimal(*timer as nat));
                }
                let n = text.as_str().unicode_len();
                if n < 2 {
                    2
                } else {
                    n
                }
            },
            SquareContent::FallingDrill { animation_counter } => {
                let (relative_coords, driller_direction) = falling_block_data.unwrap();
                let direction = choose_drill_direction(viewer_direction, driller_direction);
                let text = get_drill_text(*animation_counter, direction, relative_coords);
                proof {
                    assert(text@.len() == 2);
                }
                2
            },
            SquareContent::LandedDrill { texts_by_viewer_direction } => {
                let text = texts_by_viewer_direction[direction_to_0123(viewer_direction)];
                proof {
                    assert(text@.len() == 2);
                }
                2
            },
        }
    }

    /// Draws this square at (x, y) and (x+1, y) of the buffer (a bomb timer of three digits
    /// takes a third cell). Blocks are drawn as "()" on terminals without colors.
    ///
    /// `falling_block_data` is, for a falling block, its relative coordinates and the
    /// direction of the player who owns it; `viewer_direction` is the direction of the
    /// player who will see the result. All directions are unit vectors.
    pub fn render(
        &self,
        buffer: &mut RenderBuffer,
        x: usize,
        y: usize,
        falling_block_data: Option<(BlockRelativeCoords, (i8, i8))>,
        viewer_direction: (i8, i8),
    )
        requires
            old(buffer).wf(),
            y < old(buffer).height,
            x + self.render_chars(
                falling_block_data,
                viewer_direction,
                old(buffer).terminal_type == crate::escapes::TerminalType::ANSI,
            ).len() <= old(buffer).width,
            self.spec_is_drill() ==> is_unit_direction(viewer_direction),
            *self is FallingDrill ==> falling_block_data is Some && in_drill_shape(
                falling_block_data.unwrap().0,
            ) && is_unit_direction(falling_block_data.unwrap().1),
        ensures
            final(buffer).wf(),
            ({
                let has_color = old(buffer).terminal_type == crate::escapes::TerminalType::ANSI;
                final(buffer).cells_written(
                    old(buffer),
                    x as int,
                    y as int,
                    self.render_chars(falling_block_data, viewer_direction, has_color),
                    self.render_colors(has_color),
                )
            }),
    {
        let ghost has_color = buffer.terminal_type == crate::escapes::TerminalType::ANSI;
        match self {
            SquareContent::Normal(chars_and_colors) => {
                let (char1, color1) = chars_and_colors[0];
                let (char2, color2) = chars_and_colors[1];
                if char1 == ' ' && char2 == ' ' && !buffer.terminal_type.has_color() {
                    // The same block can be shown on different kinds of terminals,
                    // so the text is chosen here and not when the block is created.
                    set_two_cells(buffer, x, y, '(', ')', Color::default_colors(), Color::default_colors());
                } else {
                    set_two_cells(buffer, x, y, char1, char2, color1, color2);
                }
            },
            SquareContent::Bomb { timer, .. } => {
                let color = self.get_trace_color();
                let mut text = String::new();
                push_decimal(&mut text, *timer as u64);
                if text.unicode_len() < 2 {
                    push_char(&mut text, ' ');
                    proof {
                        assert(text@ =~= Self::bomb_text(*timer));
                    }
                }
                buffer.add_text_with_color(x, y, text.as_str(), color);
                proof {
                    assert(self.render_colors(has_color) =~= Seq::new(
                        text@.len(),
                        |i: int| color,
                    ));
                }
            },
            SquareContent::FallingDrill { animation_counter } => {
                let (relative_coords, driller_direction) = falling_block_data.unwrap();
                let direction = choose_drill_direction(viewer_direction, driller_direction);
                let text = get_drill_text(*animation_counter, direction, relative_coords);
                set_two_cells(buffer, x, y, text[0], text[1], Color::default_colors(), Color::default_colors());
            },
            SquareContent::LandedDrill { texts_by_viewer_direction } => {
                let text = texts_by_viewer_direction[direction_to_0123(viewer_direction)];
                set_two_cells(
                    buffer,
                    x,
                    y,
                    text[0],
                    text[1],
                    Color::gray_background(),
                    Color::gray_background(),
                );
                proof {
                    assert(text@ =~= seq![text[0], text[1]]);
                }
            },
        }
    }
}


fn set_two_cells(
    buffer: &mut RenderBuffer,
    x: usize,
    y: usize,
    c1: char,
    c2: char,
    color1: Color,
    color2: Color,
)
    requires
        old(buffer).wf(),
        y < old(buffer).height,
        x + 2 <= old(buffer).width,
    ensures
        final(buffer).wf(),
        final(buffer).cells_written(
            old(buffer),
            x as int,
            y as int,
            seq![c1, c2],
            seq![color1, color2],
        ),
{
    let ghost b0 = *buffer;
    buffer.set_char_with_color(x, y, c1, color1);
    let ghost b1 = *buffer;
    buffer.set_char_with_color(x + 1, y, c2, color2);
    proof {
        let chars = seq![c1, c2];
        let colors = seq![color1, color2];
        assert forall|i: int, j: int|
            0 <= i < buffer.width && 0 <= j < buffer.height implies #[trigger] buffer.char_at(i, j) == (
            if j == y && x <= i < x + chars.len() { chars[i - x] } else { b0.char_at(i, j) }) by {
            if !(i == x + 1 && j == y) {
                assert(buffer.char_at(i, j) == b1.char_at(i, j));
                if !(i == x && j == y) {
                    assert(b1.char_at(i, j) == b0.char_at(i, j));
                }
            }
        }
        assert forall|i: int, j: int|
            0 <= i < buffer.width && 0 <= j < buffer.height implies #[trigger] buffer.color_at(i, j) == (
            if j == y && x <= i < x + chars.len() { colors[i - x] } else { b0.color_at(i, j) }) by {
            if !(i == x + 1 && j == y) {
                assert(buffer.color_at(i, j) == b1.color_at(i, j));
                if !(i == x && j == y) {
                    assert(b1.color_at(i, j) == b0.color_at(i, j));
                }
            }
        }
    }
}


/// A point turned `r` quarter turns clockwise around (0, 0) (with y pointing down, as on
/// the screen): (x, y) becomes (-y, x) for each quarter turn.
pub open spec fn turned(p: BlockRelativeCoords, r: int) -> (int, int) {
    if r == 0 {
        (p.0 as int, p.1 as int)
    } else if r == 1 {
        (-p.1, p.0 as int)
    } else if r == 2 {
        (-p.0, -p.1)
    } else {
        (p.1 as int, -p.0)
    }
}

/// The point is one of the first four squares of `b`.
pub open spec fn among_four(b: Seq<BlockRelativeCoords>, p: (int, int)) -> bool {
    ||| (b[0].0 == p.0 && b[0].1 == p.1)
    ||| (b[1].0 == p.0 && b[1].1 == p.1)
    ||| (b[2].0 == p.0 && b[2].1 == p.1)
    ||| (b[3].0 == p.0 && b[3].1 == p.1)
}

/// Each of the four squares of `a`, turned `r` quarter turns and moved by (dx, dy), is a
/// square of `b`.
pub open spec fn moved_onto(a: Seq<BlockRelativeCoords>, b: Seq<BlockRelativeCoords>, r: int, dx: int, dy: int) -> bool {
    &&& among_four(b, (turned(a[0], r).0 + dx, turned(a[0], r).1 + dy))
    &&& among_four(b, (turned(a[1], r).0 + dx, turned(a[1], r).1 + dy))
    &&& among_four(b, (turned(a[2], r).0 + dx, turned(a[2], r).1 + dy))
    &&& among_four(b, (turned(a[3], r).0 + dx, turned(a[3], r).1 + dy))
}

/// The pieces of four squares `a` and `b` are the same piece: turning and moving `a` gives
/// `b` (not mirroring it).
pub open spec fn same_piece(a: Seq<BlockRelativeCoords>, b: Seq<BlockRelativeCoords>) -> bool {
    exists|r: int, dx: int, dy: int| 0 <= r < 4 && #[trigger] moved_onto(a, b, r, dx, dy)
}

/// The seven pieces of four squares, each drawn once (y pointing down): four in a column
/// (I), a square (O), three in a row with one under the middle (T), a column of three with
/// a foot to the right (L) or to the left (J), and the two staircases (S and Z).
pub open spec fn tetromino_picture(s: Shape) -> Seq<BlockRelativeCoords> {
    match s {
        Shape::I => seq![(0i8, 0i8), (0i8, 1i8), (0i8, 2i8), (0i8, 3i8)],
        Shape::O => seq![(0i8, 0i8), (1i8, 0i8), (0i8, 1i8), (1i8, 1i8)],
        Shape::T => seq![(0i8, 0i8), (1i8, 0i8), (2i8, 0i8), (1i8, 1i8)],
        Shape::L => seq![(0i8, 0i8), (0i8, 1i8), (0i8, 2i8), (1i8, 2i8)],
        Shape::J => seq![(1i8, 0i8), (1i8, 1i8), (1i8, 2i8), (0i8, 2i8)],
        Shape::S => seq![(0i8, 0i8), (0i8, 1i8), (1i8, 1i8), (1i8, 2i8)],
        Shape::Z => seq![(1i8, 0i8), (1i8, 1i8), (0i8, 1i8), (0i8, 2i8)],
    }
}

/// Each shape is the piece of four different squares that its name says (see
/// `tetromino_picture`), with a square at the center of the block.
pub proof fn law_shapes_are_their_pieces(s: Shape)
    ensures
        s.spec_coords().len() == 4,
        forall|i: int, j: int| 0 <= i < j < 4 ==> #[trigger] s.spec_coords()[i] != #[trigger] s.spec_coords()[j],
        among_four(s.spec_coords(), (0, 0)),
        same_piece(s.spec_coords(), tetromino_picture(s)),
{
    let c = s.spec_coords();
    let p = tetromino_picture(s);
    match s {
        Shape::I => assert(moved_onto(c, p, 1, 0, 2)),
        Shape::O => assert(moved_onto(c, p, 0, 1, 1)),
        Shape::T => assert(moved_onto(c, p, 2, 1, 0)),
        Shape::L => assert(moved_onto(c, p, 1, 0, 1)),
        Shape::J => assert(moved_onto(c, p, 3, 1, 1)),
        Shape::S => assert(moved_onto(c, p, 1, 0, 1)),
        Shape::Z => assert(moved_onto(c, p, 1, 0, 1)),
    }
}

/// No two shapes are the same piece: however one is turned and moved, it does not cover the
/// other.
pub proof fn law_shapes_differ(s1: Shape, s2: Shape)
    requires
        s1 != s2,
    ensures
        !same_piece(s1.spec_coords(), s2.spec_coords()),
{
    match s1 {
        Shape::L => lemma_l_differs(s2),
        Shape::I => lemma_i_differs(s2),
        Shape::J => lemma_j_differs(s2),
        Shape::O => lemma_o_differs(s2),
        Shape::T => lemma_t_differs(s2),
        Shape::Z => lemma_z_differs(s2),
        Shape::S => lemma_s_differs(s2),
    }
}

proof fn lemma_l_differs(other: Shape)
    requires
        other != Shape::L,
    ensures
        !same_piece(Shape::L.spec_coords(), other.spec_coords()),
{
    let a = Shape::L.spec_coords();
    let b = other.spec_coords();
    assert forall|r: int, dx: int, dy: int| 0 <= r < 4 implies !#[trigger] moved_onto(a, b, r, dx, dy) by {
        if other == Shape::I {
            assert(!moved_onto(a, Shape::I.spec_coords(), r, dx, dy));
        } else if other == Shape::J {
            assert(!moved_onto(a, Shape::J.spec_coords(), r, dx, dy));
        } else if other == Shape::O {
            assert(!moved_onto(a, Shape::O.spec_coords(), r, dx, dy));
        } else if other == Shape::T {
            assert(!moved_onto(a, Shape::T.spec_coords(), r, dx, dy));
        } else if other == Shape::Z {
            assert(!moved_onto(a, Shape::Z.spec_coords(), r, dx, dy));
        } else if other == Shape::S {
            assert(!moved_onto(a, Shape::S.spec_coords(), r, dx, dy));
        }
    }
}

proof fn lemma_i_differs(other: Shape)
    requires
        other != Shape::I,
    ensures
        !same_piece(Shape::I.spec_coords(), other.spec_coords()),
{
    let a = Shape::I.spec_coords();
    let b = other.spec_coords();
    assert forall|r: int, dx: int, dy: int| 0 <= r < 4 implies !#[trigger] moved_onto(a, b, r, dx, dy) by {
        if other == Shape::L {
            assert(!moved_onto(a, Shape::L.spec_coords(), r, dx, dy));
        } else if other == Shape::J {
            assert(!moved_onto(a, Shape::J.spec_coords(), r, dx, dy));
        } else if other == Shape::O {
            assert(!moved_onto(a, Shape::O.spec_coords(), r, dx, dy));
        } else if other == Shape::T {
            assert(!moved_onto(a, Shape::T.spec_coords(), r, dx, dy));
        } else if other == Shape::Z {
            assert(!moved_onto(a, Shape::Z.spec_coords(), r, dx, dy));
        } else if other == Shape::S {
            assert(!moved_onto(a, Shape::S.spec_coords(), r, dx, dy));
        }
    }
}

proof fn lemma_j_differs(other: Shape)
    requires
        other != Shape::J,
    ensures
        !same_piece(Shape::J.spec_coords(), other.spec_coords()),
{
    let a = Shape::J.spec_coords();
    let b = other.spec_coords();
    assert forall|r: int, dx: int, dy: int| 0 <= r < 4 implies !#[trigger] moved_onto(a, b, r, dx, dy) by {
        if other == Shape::L {
            assert(!moved_onto(a, Shape::L.spec_coords(), r, dx, dy));
        } else if other == Shape::I {
            assert(!moved_onto(a, Shape::I.spec_coords(), r, dx, dy));
        } else if other == Shape::O {
            assert(!moved_onto(a, Shape::O.spec_coords(), r, dx, dy));
        } else if other == Shape::T {
            assert(!moved_onto(a, Shape::T.spec_coords(), r, dx, dy));
        } else if other == Shape::Z {
            assert(!moved_onto(a, Shape::Z.spec_coords(), r, dx, dy));
        } else if other == Shape::S {
            assert(!moved_onto(a, Shape::S.spec_coords(), r, dx, dy));
        }
    }
}

proof fn lemma_o_differs(other: Shape)
    requires
        other != Shape::O,
    ensures
        !same_piece(Shape::O.spec_coords(), other.spec_coords()),
{
    let a = Shape::O.spec_coords();
    let b = other.spec_coords();
    assert forall|r: int, dx: int, dy: int| 0 <= r < 4 implies !#[trigger] moved_onto(a, b, r, dx, dy) by {
        if other == Shape::L {
            assert(!moved_onto(a, Shape::L.spec_coords(), r, dx, dy));
        } else if other == Shape::I {
            assert(!moved_onto(a, Shape::I.spec_coords(), r, dx, dy));
        } else if other == Shape::J {
            assert(!moved_onto(a, Shape::J.spec_coords(), r, dx, dy));
        } else if other == Shape::T {
            assert(!moved_onto(a, Shape::T.spec_coords(), r, dx, dy));
        } else if other == Shape::Z {
            assert(!moved_onto(a, Shape::Z.spec_coords(), r, dx, dy));
        } else if other == Shape::S {
            assert(!moved_onto(a, Shape::S.spec_coords(), r, dx, dy));
        }
    }
}

proof fn lemma_t_differs(other: Shape)
    requires
        other != Shape::T,
    ensures
        !same_piece(Shape::T.spec_coords(), other.spec_coords()),
{
    let a = Shape::T.spec_coords();
    let b = other.spec_coords();
    assert forall|r: int, dx: int, dy: int| 0 <= r < 4 implies !#[trigger] moved_onto(a, b, r, dx, dy) by {
        if other == Shape::L {
            assert(!moved_onto(a, Shape::L.spec_coords(), r, dx, dy));
        } else if other == Shape::I {
            assert(!moved_onto(a, Shape::I.spec_coords(), r, dx, dy));
        } else if other == Shape::J {
            assert(!moved_onto(a, Shape::J.spec_coords(), r, dx, dy));
        } else if other == Shape::O {
            assert(!moved_onto(a, Shape::O.spec_coords(), r, dx, dy));
        } else if other == Shape::Z {
            assert(!moved_onto(a, Shape::Z.spec_coords(), r, dx, dy));
        } else if other == Shape::S {
            assert(!moved_onto(a, Shape::S.spec_coords(), r, dx, dy));
        }
    }
}

proof fn lemma_z_differs(other: Shape)
    requires
        other != Shape::Z,
    ensures
        !same_piece(Shape::Z.spec_coords(), other.spec_coords()),
{
    let a = Shape::Z.spec_coords();
    let b = other.spec_coords();
    assert forall|r: int, dx: int, dy: int| 0 <= r < 4 implies !#[trigger] moved_onto(a, b, r, dx, dy) by {
        if other == Shape::L {
            assert(!moved_onto(a, Shape::L.spec_coords(), r, dx, dy));
        } else if other == Shape::I {
            assert(!moved_onto(a, Shape::I.spec_coords(), r, dx, dy));
        } else if other == Shape::J {
            assert(!moved_onto(a, Shape::J.spec_coords(), r, dx, dy));
        } else if other == Shape::O {
            assert(!moved_onto(a, Shape::O.spec_coords(), r, dx, dy));
        } else if other == Shape::T {
            assert(!moved_onto(a, Shape::T.spec_coords(), r, dx, dy));
        } else if other == Shape::S {
            assert(!moved_onto(a, Shape::S.spec_coords(), r, dx, dy));
        }
    }
}

proof fn lemma_s_differs(other: Shape)
    requires
        other != Shape::S,
    ensures
        !same_piece(Shape::S.spec_coords(), other.spec_coords()),
{
    let a = Shape::S.spec_coords();
    let b = other.spec_coords();
    assert forall|r: int, dx: int, dy: int| 0 <= r < 4 implies !#[trigger] moved_onto(a, b, r, dx, dy) by {
        if other == Shape::L {
            assert(!moved_onto(a, Shape::L.spec_coords(), r, dx, dy));
        } else if other == Shape::I {
            assert(!moved_onto(a, Shape::I.spec_coords(), r, dx, dy));
        } else if other == Shape::J {
            assert(!moved_onto(a, Shape::J.spec_coords(), r, dx, dy));
        } else if other == Shape::O {
            assert(!moved_onto(a, Shape::O.spec_coords(), r, dx, dy));
        } else if other == Shape::T {
            assert(!moved_onto(a, Shape::T.spec_coords(), r, dx, dy));
        } else if other == Shape::Z {
            assert(!moved_onto(a, Shape::Z.spec_coords(), r, dx, dy));
        }
    }
}

spec fn min4(a: int, b: int, c: int, d: int) -> int {
    let m1 = if b < a { b } else { a };
    let m2 = if c < m1 { c } else { m1 };
    if d < m2 { d } else { m2 }
}

/// `shapes_match_spec` for four squares, written out.
spec fn match_four(a: Seq<BlockRelativeCoords>, b: Seq<BlockRelativeCoords>) -> bool {
    let vx = min4(b[0].0 as int, b[1].0 as int, b[2].0 as int, b[3].0 as int) - min4(a[0].0 as int, a[1].0 as int, a[2].0 as int, a[3].0 as int);
    let vy = min4(b[0].1 as int, b[1].1 as int, b[2].1 as int, b[3].1 as int) - min4(a[0].1 as int, a[1].1 as int, a[2].1 as int, a[3].1 as int);
    &&& among_four(a, (b[0].0 - vx, b[0].1 - vy))
    &&& among_four(a, (b[1].0 - vx, b[1].1 - vy))
    &&& among_four(a, (b[2].0 - vx, b[2].1 - vy))
    &&& among_four(a, (b[3].0 - vx, b[3].1 - vy))
}

proof fn lemma_min_four(c: Seq<BlockRelativeCoords>)
    requires
        c.len() == 4,
    ensures
        min_x(c) == min4(c[0].0 as int, c[1].0 as int, c[2].0 as int, c[3].0 as int),
        min_y(c) == min4(c[0].1 as int, c[1].1 as int, c[2].1 as int, c[3].1 as int),
{
    assert(c.drop_last().drop_last().drop_last() =~= seq![c[0]]);
    assert(c.drop_last().drop_last() =~= seq![c[0], c[1]]);
    assert(c.drop_last() =~= seq![c[0], c[1], c[2]]);
    reveal_with_fuel(min_x, 4);
    reveal_with_fuel(min_y, 4);
}

proof fn lemma_match_four(a: Seq<BlockRelativeCoords>, b: Seq<BlockRelativeCoords>)
    requires
        a.len() == 4,
        b.len() == 4,
    ensures
        shapes_match_spec(a, b) == match_four(a, b),
{
    lemma_min_four(a);
    lemma_min_four(b);
    let vx = min_x(b) - min_x(a);
    let vy = min_y(b) - min_y(a);
    if shapes_match_spec(a, b) {
        assert forall|j: int| 0 <= j < 4 implies among_four(a, (b[j].0 - vx, b[j].1 - vy)) by {
            let i = choose|i: int| 0 <= i < a.len() && a[i].0 + vx == (#[trigger] b[j]).0 && a[i].1 + vy == b[j].1;
            assert(0 <= i < 4);
        }
        assert(among_four(a, (b[0].0 - vx, b[0].1 - vy)));
        assert(among_four(a, (b[1].0 - vx, b[1].1 - vy)));
        assert(among_four(a, (b[2].0 - vx, b[2].1 - vy)));
        assert(among_four(a, (b[3].0 - vx, b[3].1 - vy)));
    }
    if match_four(a, b) {
        assert forall|j: int| 0 <= j < b.len() implies exists|i: int|
            0 <= i < a.len() && a[i].0 + vx == (#[trigger] b[j]).0 && a[i].1 + vy == b[j].1 by {
            assert(among_four(a, (b[j].0 - vx, b[j].1 - vy)));
            if a[0].0 == b[j].0 - vx && a[0].1 == b[j].1 - vy {
                assert(a[0].0 + vx == b[j].0);
            } else if a[1].0 == b[j].0 - vx && a[1].1 == b[j].1 - vy {
                assert(a[1].0 + vx == b[j].0);
            } else if a[2].0 == b[j].0 - vx && a[2].1 == b[j].1 - vy {
                assert(a[2].0 + vx == b[j].0);
            } else {
                assert(a[3].0 + vx == b[j].0);
            }
        }
    }
}

/// How the blocks of each shape turn: L, J and T turn all the way round (in the direction
/// the player prefers), I, S and Z have two positions, and O does not turn.
pub proof fn law_turning_kinds(s: Shape, content: SquareContent)
    requires
        !content.spec_is_drill(),
    ensures
        (s == Shape::L || s == Shape::J || s == Shape::T) ==> initial_rotate_mode(s.spec_coords(), content) == RotateMode::FullRotating,
        (s == Shape::I || s == Shape::S || s == Shape::Z) ==> initial_rotate_mode(s.spec_coords(), content) == RotateMode::NextCounterClockwiseThenBack,
        s == Shape::O ==> initial_rotate_mode(s.spec_coords(), content) == RotateMode::NoRotating,
{
    match s {
        Shape::L => lemma_turning_kind_l(content),
        Shape::I => lemma_turning_kind_i(content),
        Shape::J => lemma_turning_kind_j(content),
        Shape::O => lemma_turning_kind_o(content),
        Shape::T => lemma_turning_kind_t(content),
        Shape::Z => lemma_turning_kind_z(content),
        Shape::S => lemma_turning_kind_s(content),
    }
}

#[verifier::spinoff_prover]
#[verifier::rlimit(40)]
proof fn lemma_turning_kind_l(content: SquareContent)
    requires
        !content.spec_is_drill(),
    ensures
        initial_rotate_mode(Shape::L.spec_coords(), content) == RotateMode::FullRotating,
{
    let c = Shape::L.spec_coords();
    let cw = rotated_clockwise(c);
    let tw = rotated_twice(c);
    assert(cw.len() == 4 && tw.len() == 4);
    assert(cw[0] == ((-c[0].1) as i8, c[0].0) && cw[1] == ((-c[1].1) as i8, c[1].0)
        && cw[2] == ((-c[2].1) as i8, c[2].0) && cw[3] == ((-c[3].1) as i8, c[3].0));
    assert(tw[0] == ((-c[0].0) as i8, (-c[0].1) as i8) && tw[1] == ((-c[1].0) as i8, (-c[1].1) as i8)
        && tw[2] == ((-c[2].0) as i8, (-c[2].1) as i8) && tw[3] == ((-c[3].0) as i8, (-c[3].1) as i8));
    lemma_match_four(c, cw);
    lemma_match_four(c, tw);
}

#[verifier::spinoff_prover]
#[verifier::rlimit(40)]
proof fn lemma_turning_kind_i(content: SquareContent)
    requires
        !content.spec_is_drill(),
    ensures
        initial_rotate_mode(Shape::I.spec_coords(), content) == RotateMode::NextCounterClockwiseThenBack,
{
    let c = Shape::I.spec_coords();
    let cw = rotated_clockwise(c);
    let tw = rotated_twice(c);
    assert(cw.len() == 4 && tw.len() == 4);
    assert(cw[0] == ((-c[0].1) as i8, c[0].0) && cw[1] == ((-c[1].1) as i8, c[1].0)
        && cw[2] == ((-c[2].1) as i8, c[2].0) && cw[3] == ((-c[3].1) as i8, c[3].0));
    assert(tw[0] == ((-c[0].0) as i8, (-c[0].1) as i8) && tw[1] == ((-c[1].0) as i8, (-c[1].1) as i8)
        && tw[2] == ((-c[2].0) as i8, (-c[2].1) as i8) && tw[3] == ((-c[3].0) as i8, (-c[3].1) as i8));
    lemma_match_four(c, cw);
    lemma_match_four(c, tw);
}

#[verifier::spinoff_prover]
#[verifier::rlimit(40)]
proof fn lemma_turning_kind_j(content: SquareContent)
    requires
        !content.spec_is_drill(),
    ensures
        initial_rotate_mode(Shape::J.spec_coords(), content) == RotateMode::FullRotating,
{
    let c = Shape::J.spec_coords();
    let cw = rotated_clockwise(c);
    let tw = rotated_twice(c);
    assert(cw.len() == 4 && tw.len() == 4);
    assert(cw[0] == ((-c[0].1) as i8, c[0].0) && cw[1] == ((-c[1].1) as i8, c[1].0)
        && cw[2] == ((-c[2].1) as i8, c[2].0) && cw[3] == ((-c[3].1) as i8, c[3].0));
    assert(tw[0] == ((-c[0].0) as i8, (-c[0].1) as i8) && tw[1] == ((-c[1].0) as i8, (-c[1].1) as i8)
        && tw[2] == ((-c[2].0) as i8, (-c[2].1) as i8) && tw[3] == ((-c[3].0) as i8, (-c[3].1) as i8));
    lemma_match_four(c, cw);
    lemma_match_four(c, tw);
}

#[verifier::spinoff_prover]
#[verifier::rlimit(40)]
proof fn lemma_turning_kind_o(content: SquareContent)
    requires
        !content.spec_is_drill(),
    ensures
        initial_rotate_mode(Shape::O.spec_coords(), content) == RotateMode::NoRotating,
{
    let c = Shape::O.spec_coords();
    let cw = rotated_clockwise(c);
    let tw = rotated_twice(c);
    assert(cw.len() == 4 && tw.len() == 4);
    assert(cw[0] == ((-c[0].1) as i8, c[0].0) && cw[1] == ((-c[1].1) as i8, c[1].0)
        && cw[2] == ((-c[2].1) as i8, c[2].0) && cw[3] == ((-c[3].1) as i8, c[3].0));
    assert(tw[0] == ((-c[0].0) as i8, (-c[0].1) as i8) && tw[1] == ((-c[1].0) as i8, (-c[1].1) as i8)
        && tw[2] == ((-c[2].0) as i8, (-c[2].1) as i8) && tw[3] == ((-c[3].0) as i8, (-c[3].1) as i8));
    lemma_match_four(c, cw);
    lemma_match_four(c, tw);
}

#[verifier::spinoff_prover]
#[verifier::rlimit(40)]
proof fn lemma_turning_kind_t(content: SquareContent)
    requires
        !content.spec_is_drill(),
    ensures
        initial_rotate_mode(Shape::T.spec_coords(), content) == RotateMode::FullRotating,
{
    let c = Shape::T.spec_coords();
    let cw = rotated_clockwise(c);
    let tw = rotated_twice(c);
    assert(cw.len() == 4 && tw.len() == 4);
    assert(cw[0] == ((-c[0].1) as i8, c[0].0) && cw[1] == ((-c[1].1) as i8, c[1].0)
        && cw[2] == ((-c[2].1) as i8, c[2].0) && cw[3] == ((-c[3].1) as i8, c[3].0));
    assert(tw[0] == ((-c[0].0) as i8, (-c[0].1) as i8) && tw[1] == ((-c[1].0) as i8, (-c[1].1) as i8)
        && tw[2] == ((-c[2].0) as i8, (-c[2].1) as i8) && tw[3] == ((-c[3].0) as i8, (-c[3].1) as i8));
    lemma_match_four(c, cw);
    lemma_match_four(c, tw);
}

#[verifier::spinoff_prover]
#[verifier::rlimit(40)]
proof fn lemma_turning_kind_z(content: SquareContent)
    requires
        !content.spec_is_drill(),
    ensures
        initial_rotate_mode(Shape::Z.spec_coords(), content) == RotateMode::NextCounterClockwiseThenBack,
{
    let c = Shape::Z.spec_coords();
    let cw = rotated_clockwise(c);
    let tw = rotated_twice(c);
    assert(cw.len() == 4 && tw.len() == 4);
    assert(cw[0] == ((-c[0].1) as i8, c[0].0) && cw[1] == ((-c[1].1) as i8, c[1].0)
        && cw[2] == ((-c[2].1) as i8, c[2].0) && cw[3] == ((-c[3].1) as i8, c[3].0));
    assert(tw[0] == ((-c[0].0) as i8, (-c[0].1) as i8) && tw[1] == ((-c[1].0) as i8, (-c[1].1) as i8)
        && tw[2] == ((-c[2].0) as i8, (-c[2].1) as i8) && tw[3] == ((-c[3].0) as i8, (-c[3].1) as i8));
    lemma_match_four(c, cw);
    lemma_match_four(c, tw);
}

#[verifier::spinoff_prover]
#[verifier::rlimit(40)]
proof fn lemma_turning_kind_s(content: SquareContent)
    requires
        !content.spec_is_drill(),
    ensures
        initial_rotate_mode(Shape::S.spec_coords(), content) == RotateMode::NextCounterClockwiseThenBack,
{
    let c = Shape::S.spec_coords();
    let cw = rotated_clockwise(c);
    let tw = rotated_twice(c);
    assert(cw.len() == 4 && tw.len() == 4);
    assert(cw[0] == ((-c[0].1) as i8, c[0].0) && cw[1] == ((-c[1].1) as i8, c[1].0)
        && cw[2] == ((-c[2].1) as i8, c[2].0) && cw[3] == ((-c[3].1) as i8, c[3].0));
    assert(tw[0] == ((-c[0].0) as i8, (-c[0].1) as i8) && tw[1] == ((-c[1].0) as i8, (-c[1].1) as i8)
        && tw[2] == ((-c[2].0) as i8, (-c[2].1) as i8) && tw[3] == ((-c[3].0) as i8, (-c[3].1) as i8));
    lemma_match_four(c, cw);
    lemma_match_four(c, tw);
}

/// Every shape has a color of its own.
pub proof fn law_shape_colors_differ(s1: Shape, s2: Shape)
    requires
        s1 != s2,
    ensures
        s1.spec_color() != s2.spec_color(),
{
}

/// The seven tetromino shapes.
#[derive(Copy, Clone, Debug, PartialEq, Eq, Structural)]
pub enum Shape {
    L,
    I,
    J,
    O,
    T,
    Z,
    S,
}

pub open spec fn all_shapes() -> Seq<Shape> {
    seq![Shape::L, Shape::I, Shape::J, Shape::O, Shape::T, Shape::Z, Shape::S]
}

fn all_shapes_exec() -> (r: Vec<Shape>)
    ensures
        r@ == all_shapes(),
{
    vec![Shape::L, Shape::I, Shape::J, Shape::O, Shape::T, Shape::Z, Shape::S]
}

impl Shape {
    pub open spec fn spec_color(&self) -> Color {
        match *self {
            // Colors of the Tetris guideline; L should be orange, which Windows cmd lacks.
            Shape::L => Color::spec_white_background(),
            Shape::I => Color::spec_cyan_background(),
            Shape::J => Color::spec_blue_background(),
            Shape::O => Color::spec_yellow_background(),
            Shape::T => Color::spec_magenta_background(),
            Shape::Z => Color::spec_red_background(),
            Shape::S => Color::spec_green_background(),
        }
    }

    pub open spec fn spec_coords(&self) -> Seq<BlockRelativeCoords> {
        match *self {
            Shape::L => seq![(-1i8, 0i8), (0i8, 0i8), (1i8, 0i8), (1i8, -1i8)],
            Shape::I => seq![(-2i8, 0i8), (-1i8, 0i8), (0i8, 0i8), (1i8, 0i8)],
            Shape::J => seq![(-1i8, -1i8), (-1i8, 0i8), (0i8, 0i8), (1i8, 0i8)],
            Shape::O => seq![(-1i8, 0i8), (0i8, 0i8), (0i8, -1i8), (-1i8, -1i8)],
            Shape::T => seq![(-1i8, 0i8), (0i8, 0i8), (1i8, 0i8), (0i8, -1i8)],
            Shape::Z => seq![(-1i8, -1i8), (0i8, -1i8), (0i8, 0i8), (1i8, 0i8)],
            Shape::S => seq![(1i8, -1i8), (0i8, -1i8), (0i8, 0i8), (-1i8, 0i8)],
        }
    }

    #[verifier::when_used_as_spec(spec_color)]
    pub fn color(&self) -> (r: Color)
        ensures
            r == self.spec_color(),
    {
        match self {
            Shape::L => Color::white_background(),
            Shape::I => Color::cyan_background(),
            Shape::J => Color::blue_background(),
            Shape::O => Color::yellow_background(),
            Shape::T => Color::magenta_background(),
            Shape::Z => Color::red_background(),
            Shape::S => Color::green_background(),
        }
    }

    pub fn coords(&self) -> (r: Vec<BlockRelativeCoords>)
        ensures
            r@ == self.spec_coords(),
    {
        match self {
            Shape::L => vec![(-1, 0), (0, 0), (1, 0), (1, -1)],
            Shape::I => vec![(-2, 0), (-1, 0), (0, 0), (1, 0)],
            Shape::J => vec![(-1, -1), (-1, 0), (0, 0), (1, 0)],
            Shape::O => vec![(-1, 0), (0, 0), (0, -1), (-1, -1)],
            Shape::T => vec![(-1, 0), (0, 0), (1, 0), (0, -1)],
            Shape::Z => vec![(-1, -1), (0, -1), (0, 0), (1, 0)],
            Shape::S => vec![(1, -1), (0, -1), (0, 0), (-1, 0)],
        }
    }
}

/// The squares of a drill; its x coordinates are the same as in the O block.
pub open spec fn drill_coords() -> Seq<BlockRelativeCoords> {
    seq![(-1i8, -2i8), (0i8, -2i8), (-1i8, -1i8), (0i8, -1i8), (-1i8, 0i8), (0i8, 0i8), (-1i8, 1i8), (0i8, 1i8), (-1i8, 2i8), (0i8, 2i8)]
}

fn drill_coords_exec() -> (r: Vec<BlockRelativeCoords>)
    ensures
        r@ == drill_coords(),
{
    vec![(-1, -2), (0, -2), (-1, -1), (0, -1), (-1, 0), (0, 0), (-1, 1), (0, 1), (-1, 2), (0, 2)]
}

/// The kinds of falling blocks.
#[derive(Copy, Clone, Debug, PartialEq, Eq, Structural)]
pub enum BlockType {
    Normal(Shape),
    /// A shape with one extra square stuck to it.
    Cursed(Shape),
    Drill,
    Bomb,
}

/// How likely each kind of block is at a given score, as integer weights
/// (normal, cursed, drill, bomb), all scaled by the same factor.
///
/// Relative to a normal block (1), with k = score / 1000: cursed blocks have weight
/// max(k - 0.5, 0) / 20, so they only appear above 500 points and then become very common;
/// drills k / 200, rare but always possible; bombs k / 80 + 0.01, initially 1% of normal
/// blocks and more common with more points.
pub open spec fn block_type_weights(score: nat) -> Seq<u128> {
    seq![
        400000u128,
        (20 * (if score > 500 { score - 500 } else { 0 })) as u128,
        (2 * score) as u128,
        (5 * score + 4000) as u128,
    ]
}

/// The odds of the kinds of blocks, against a normal block: cursed blocks come only after
/// 500 points, drills are possible as soon as there are points, bombs are one in a hundred
/// at the start, and no kind gets rarer as the score grows.
pub proof fn law_block_type_odds(score: nat, more: nat)
    requires
        score <= more <= usize::MAX,
    ensures
        block_type_weights(score).len() == 4,
        block_type_weights(score)[0] == 400000,
        block_type_weights(score)[1] > 0 <==> score > 500,
        block_type_weights(score)[2] > 0 <==> score > 0,
        score == 0 ==> block_type_weights(score)[3] * 100 == block_type_weights(score)[0],
        forall|k: int| 1 <= k < 4 ==> #[trigger] block_type_weights(score)[k] <= block_type_weights(more)[k],
{
    let w = block_type_weights(score);
    let m = block_type_weights(more);
    assert(w[1] <= m[1] && w[2] <= m[2] && w[3] <= m[3]);
}

/// The kind of block for a drawn index of `block_type_weights` (normal, cursed, drill,
/// bomb) and a drawn shape, which normal and cursed blocks get.
pub open spec fn block_type_spec(index: int, shape: Shape) -> BlockType {
    if index == 0 {
        BlockType::Normal(shape)
    } else if index == 1 {
        BlockType::Cursed(shape)
    } else if index == 2 {
        BlockType::Drill
    } else {
        BlockType::Bomb
    }
}

impl BlockType {
    /// The kind of block for a drawn index of `block_type_weights` and a drawn shape (see
    /// `block_type_spec`).
    pub fn block_type_of(index: usize, shape: Shape) -> (r: BlockType)
        requires
            index < 4,
        ensures
            r == block_type_spec(index as int, shape),
    {
        if index == 0 {
            BlockType::Normal(shape)
        } else if index == 1 {
            BlockType::Cursed(shape)
        } else if index == 2 {
            BlockType::Drill
        } else {
            BlockType::Bomb
        }
    }

    /// A random kind of block; the chances depend on the score (see `block_type_weights`):
    /// an index with a positive weight is drawn, and normal and cursed blocks get a random
    /// shape.
    pub fn from_score(score: usize) -> (r: Self)
        ensures
            exists|i: int, s: Shape| 0 <= i < 4 && block_type_weights(score as nat)[i] > 0 && all_shapes().contains(s)
                && r == block_type_spec(i, s),
            r is Cursed ==> score > 500,
            r is Drill ==> score > 0,
    {
        let s = score as u128;
        let cursed: u128 = if s > 500 {
            20 * (s - 500)
        } else {
            0
        };
        let weights: Vec<u128> = vec![400000, cursed, 2 * s, 5 * s + 4000];
        proof {
            assert(weights@ == block_type_weights(score as nat));
            reveal_with_fuel(weight_sum, 5);
            assert(weights@.drop_last().drop_last().drop_last().drop_last() =~= Seq::<u128>::empty());
            assert(weights@.drop_last().drop_last().drop_last() =~= seq![400000u128]);
            assert(weights@.drop_last().drop_last() =~= seq![400000u128, cursed]);
            assert(weights@.drop_last() =~= seq![400000u128, cursed, (2 * s) as u128]);
        }
        let index = weighted_random_index(weights.as_slice());
        let shapes = all_shapes_exec();
        let shape = if index <= 1 {
            random_choice(shapes.as_slice())
        } else {
            // drills and bombs have no shape to draw
            proof {
                assert(all_shapes()[0] == Shape::L);
            }
            Shape::L
        };
        let r = BlockType::block_type_of(index, shape);
        proof {
            assert(block_type_weights(score as nat)[index as int] > 0);
            assert(all_shapes().contains(shape));
        }
        r
    }
}

/// How a block turns when rotated.
#[derive(Copy, Clone, Debug, PartialEq, Eq, Structural)]
pub enum RotateMode {
    /// Turning would not change the shape.
    NoRotating,
    /// Two positions (S, Z, I): the next turn is counter-clockwise, the one after it back.
    NextCounterClockwiseThenBack,
    /// Two positions: the next turn is clockwise, the one after it back.
    NextClockwiseThenBack,
    /// All four positions, in the direction the player prefers.
    FullRotating,
}

/// All coordinates are at most 16 away from the center.
pub open spec fn coords_bounded(c: Seq<BlockRelativeCoords>) -> bool {
    forall|i: int| 0 <= i < c.len() ==> -16 <= #[trigger] c[i].0 <= 16 && -16 <= c[i].1 <= 16
}

/// Each square turned clockwise (y axis pointing down): (x, y) becomes (-y, x).
pub open spec fn rotated_clockwise(c: Seq<BlockRelativeCoords>) -> Seq<BlockRelativeCoords> {
    Seq::new(c.len(), |i: int| ((-c[i].1) as i8, c[i].0))
}

/// Each square turned counter-clockwise: (x, y) becomes (y, -x).
pub open spec fn rotated_counter_clockwise(c: Seq<BlockRelativeCoords>) -> Seq<BlockRelativeCoords> {
    Seq::new(c.len(), |i: int| (c[i].1, (-c[i].0) as i8))
}

/// Each square turned half a turn: (x, y) becomes (-x, -y).
pub open spec fn rotated_twice(c: Seq<BlockRelativeCoords>) -> Seq<BlockRelativeCoords> {
    Seq::new(c.len(), |i: int| ((-c[i].0) as i8, (-c[i].1) as i8))
}

/// Smallest x coordinate.
pub open spec fn min_x(c: Seq<BlockRelativeCoords>) -> int
    decreases c.len(),
{
    if c.len() <= 1 {
        c[0].0 as int
    } else {
        let m = min_x(c.drop_last());
        if c.last().0 < m {
            c.last().0 as int
        } else {
            m
        }
    }
}

/// Smallest y coordinate.
pub open spec fn min_y(c: Seq<BlockRelativeCoords>) -> int
    decreases c.len(),
{
    if c.len() <= 1 {
        c[0].1 as int
    } else {
        let m = min_y(c.drop_last());
        if c.last().1 < m {
            c.last().1 as int
        } else {
            m
        }
    }
}

/// `b` is `a` moved by the vector that takes the smallest coordinates of `a` to those of `b`.
pub open spec fn shapes_match_spec(a: Seq<BlockRelativeCoords>, b: Seq<BlockRelativeCoords>) -> bool {
    let vx = min_x(b) - min_x(a);
    let vy = min_y(b) - min_y(a);
    forall|j: int|
        0 <= j < b.len() ==> exists|i: int|
            0 <= i < a.len() && a[i].0 + vx == (#[trigger] b[j]).0 && a[i].1 + vy == b[j].1
}

proof fn lemma_min_bounds(c: Seq<BlockRelativeCoords>)
    requires
        c.len() > 0,
        coords_bounded(c),
    ensures
        -16 <= min_x(c) <= 16,
        -16 <= min_y(c) <= 16,
    decreases c.len(),
{
    if c.len() > 1 {
        lemma_min_bounds(c.drop_last());
    }
}

fn min_coords(c: &Vec<BlockRelativeCoords>) -> (r: (i8, i8))
    requires
        c@.len() > 0,
        coords_bounded(c@),
    ensures
        r.0 == min_x(c@),
        r.1 == min_y(c@),
        -16 <= r.0 <= 16,
        -16 <= r.1 <= 16,
{
    let mut mx = c[0].0;
    let mut my = c[0].1;
    let mut i: usize = 1;
    proof {
        assert(c@.take(1).drop_last() =~= Seq::<BlockRelativeCoords>::empty());
    }
    while i < c.len()
        invariant
            1 <= i <= c@.len(),
            coords_bounded(c@),
            mx == min_x(c@.take(i as int)),
            my == min_y(c@.take(i as int)),
        decreases c@.len() - i,
    {
        proof {
            assert(c@.take(i + 1).drop_last() =~= c@.take(i as int));
        }
        if c[i].0 < mx {
            mx = c[i].0;
        }
        if c[i].1 < my {
            my = c[i].1;
        }
        i = i + 1;
    }
    proof {
        assert(c@.take(c@.len() as int) =~= c@);
        lemma_min_bounds(c@);
    }
    (mx, my)
}

fn contains_coords(c: &Vec<BlockRelativeCoords>, p: BlockRelativeCoords) -> (r: bool)
    ensures
        r == exists|i: int| 0 <= i < c@.len() && (#[trigger] c@[i]).0 == p.0 && c@[i].1 == p.1,
{
    let mut i: usize = 0;
    while i < c.len()
        invariant
            0 <= i <= c@.len(),
            forall|j: int| 0 <= j < i ==> !((#[trigger] c@[j]).0 == p.0 && c@[j].1 == p.1),
        decreases c@.len() - i,
    {
        if c[i].0 == p.0 && c[i].1 == p.1 {
            return true;
        }
        i = i + 1;
    }
    false
}

// Checks if a and b are the same shape, but possibly in different locations.
fn shapes_match(a: &Vec<BlockRelativeCoords>, b: &Vec<BlockRelativeCoords>) -> (r: bool)
    requires
        a@.len() > 0,
        a@.len() == b@.len(),
        coords_bounded(a@),
        coords_bounded(b@),
    ensures
        r == shapes_match_spec(a@, b@),
{
    // The vector v that produces b when added to elements of a is v = b[i]-a[j],
    // where i and j are indexes of corresponding elements.
    let (ax, ay) = min_coords(a);
    let (bx, by) = min_coords(b);
    let vx = bx - ax;
    let vy = by - ay;
    let mut shifted_a: Vec<BlockRelativeCoords> = Vec::new();
    let mut i: usize = 0;
    while i < a.len()
        invariant
            0 <= i <= a@.len(),
            coords_bounded(a@),
            -32 <= vx <= 32,
            -32 <= vy <= 32,
            shifted_a@.len() == i,
            forall|k: int| 0 <= k < i ==> (#[trigger] shifted_a@[k]).0 == a@[k].0 + vx && shifted_a@[k].1 == a@[k].1 + vy,
        decreases a@.len() - i,
    {
        shifted_a.push((a[i].0 + vx, a[i].1 + vy));
        i = i + 1;
    }
    let mut j: usize = 0;
    while j < b.len()
        invariant
            0 <= j <= b@.len(),
            vx == min_x(b@) - min_x(a@),
            vy == min_y(b@) - min_y(a@),
            shifted_a@.len() == a@.len(),
            forall|k: int| 0 <= k < a@.len() ==> (#[trigger] shifted_a@[k]).0 == a@[k].0 + vx && shifted_a@[k].1 == a@[k].1 + vy,
            forall|l: int|
                0 <= l < j ==> exists|k: int|
                    0 <= k < a@.len() && a@[k].0 + vx == (#[trigger] b@[l]).0 && a@[k].1 + vy == b@[l].1,
        decreases b@.len() - j,
    {
        if !contains_coords(&shifted_a, b[j]) {
            proof {
                assert forall|k: int| 0 <= k < a@.len() implies !(a@[k].0 + vx == b@[j as int].0 && a@[k].1 + vy == b@[j as int].1) by {
                    assert(shifted_a@[k].0 == a@[k].0 + vx);
                }
            }
            return false;
        }
        proof {
            let k = choose|k: int| 0 <= k < shifted_a@.len() && (#[trigger] shifted_a@[k]).0 == b@[j as int].0 && shifted_a@[k].1 == b@[j as int].1;
            assert(a@[k].0 + vx == b@[j as int].0);
        }
        j = j + 1;
    }
    true
}

/// How a block made of these squares and this content turns when it is first created.
pub open spec fn initial_rotate_mode(c: Seq<BlockRelativeCoords>, content: SquareContent) -> RotateMode {
    if content.spec_is_drill() {
        RotateMode::NoRotating
    } else if shapes_match_spec(c, rotated_clockwise(c)) {
        RotateMode::NoRotating
    } else if shapes_match_spec(c, rotated_twice(c)) {
        RotateMode::NextCounterClockwiseThenBack
    } else {
        RotateMode::FullRotating
    }
}

fn rotate_coords(c: &Vec<BlockRelativeCoords>, clockwise: bool, twice: bool) -> (r: Vec<BlockRelativeCoords>)
    requires
        coords_bounded(c@),
    ensures
        r@ == if twice { rotated_twice(c@) } else if clockwise { rotated_clockwise(c@) } else { rotated_counter_clockwise(c@) },
        coords_bounded(r@),
{
    let mut r: Vec<BlockRelativeCoords> = Vec::new();
    let mut i: usize = 0;
    while i < c.len()
        invariant
            0 <= i <= c@.len(),
            coords_bounded(c@),
            r@ == (if twice { rotated_twice(c@) } else if clockwise { rotated_clockwise(c@) } else { rotated_counter_clockwise(c@) }).take(i as int),
        decreases c@.len() - i,
    {
        let (x, y) = c[i];
        if twice {
            r.push((-x, -y));
        } else if clockwise {
            r.push((-y, x));
        } else {
            r.push((y, -x));
        }
        proof {
            let target = if twice { rotated_twice(c@) } else if clockwise { rotated_clockwise(c@) } else { rotated_counter_clockwise(c@) };
            assert(r@ =~= target.take(i + 1));
        }
        i = i + 1;
    }
    proof {
        let target = if twice { rotated_twice(c@) } else if clockwise { rotated_clockwise(c@) } else { rotated_counter_clockwise(c@) };
        assert(r@ =~= target);
    }
    r
}

pub(crate) fn copy_coords(c: &Vec<BlockRelativeCoords>) -> (r: Vec<BlockRelativeCoords>)
    ensures
        r@ == c@,
{
    let mut r: Vec<BlockRelativeCoords> = Vec::new();
    for i in 0..c.len()
        invariant
            r@ == c@.take(i as int),
    {
        r.push(c[i]);
        proof {
            assert(r@ =~= c@.take(i + 1));
        }
    }
    proof {
        assert(c@.take(c@.len() as int) =~= c@);
    }
    r
}

fn choose_initial_rotate_mode(not_rotated: &Vec<BlockRelativeCoords>, content: &SquareContent) -> (r: RotateMode)
    requires
        not_rotated@.len() > 0,
        coords_bounded(not_rotated@),
    ensures
        r == initial_rotate_mode(not_rotated@, *content),
{
    if content.is_drill() {
        return RotateMode::NoRotating;
    }
    let rotated_once = rotate_coords(not_rotated, true, false);
    if shapes_match(not_rotated, &rotated_once) {
        return RotateMode::NoRotating;
    }
    let rotated_twice = rotate_coords(not_rotated, false, true);
    if shapes_match(not_rotated, &rotated_twice) {
        return RotateMode::NextCounterClockwiseThenBack;
    }
    RotateMode::FullRotating
}

/// The four neighbor offsets.
pub open spec fn neighbor_offsets() -> Seq<BlockRelativeCoords> {
    seq![(-1i8, 0i8), (1i8, 0i8), (0i8, -1i8), (0i8, 1i8)]
}

/// `q` is next to one of the squares of `c` and is not one of them.
pub open spec fn is_free_neighbor(c: Seq<BlockRelativeCoords>, q: BlockRelativeCoords) -> bool {
    &&& exists|i: int, d: int|
        0 <= i < c.len() && 0 <= d < 4 && q.0 == (#[trigger] c[i]).0 + (#[trigger] neighbor_offsets()[d]).0
            && q.1 == c[i].1 + neighbor_offsets()[d].1
    &&& !c.contains(q)
}

proof fn lemma_rightmost_square(c: Seq<BlockRelativeCoords>) -> (k: int)
    requires
        c.len() > 0,
        coords_bounded(c),
    ensures
        0 <= k < c.len(),
        forall|i: int| 0 <= i < c.len() ==> (#[trigger] c[i]).0 <= c[k].0,
    decreases c.len(),
{
    if c.len() == 1 {
        0
    } else {
        let k0 = lemma_rightmost_square(c.drop_last());
        if c.last().0 > c[k0].0 {
            assert forall|i: int| 0 <= i < c.len() implies (#[trigger] c[i]).0 <= c[c.len() - 1].0 by {
                if i < c.len() - 1 {
                    assert(c[i] == c.drop_last()[i]);
                }
            }
            (c.len() - 1) as int
        } else {
            assert forall|i: int| 0 <= i < c.len() implies (#[trigger] c[i]).0 <= c[k0].0 by {
                if i < c.len() - 1 {
                    assert(c[i] == c.drop_last()[i]);
                }
            }
            k0
        }
    }
}

/// Adds a random square next to the existing squares. Every pair of an existing square
/// and a direction that leads to a free place is equally likely.
fn add_extra_square(coords: &mut Vec<BlockRelativeCoords>)
    requires
        old(coords)@.len() > 0,
        coords_bounded(old(coords)@),
        old(coords)@.len() < 1000,
    ensures
        final(coords)@.len() == old(coords)@.len() + 1,
        final(coords)@.drop_last() == old(coords)@,
        is_free_neighbor(old(coords)@, final(coords)@.last()),
{
    let offsets: Vec<BlockRelativeCoords> = vec![(-1, 0), (1, 0), (0, -1), (0, 1)];
    let mut candidates: Vec<BlockRelativeCoords> = Vec::new();
    let ghost rightmost = lemma_rightmost_square(coords@);
    let mut i: usize = 0;
    while i < coords.len()
        invariant
            0 <= i <= coords@.len(),
            0 <= rightmost < coords@.len(),
            forall|j: int| 0 <= j < coords@.len() ==> (#[trigger] coords@[j]).0 <= coords@[rightmost].0,
            i > rightmost ==> candidates@.len() > 0,
            *coords == *old(coords),
            coords_bounded(coords@),
            offsets@ == neighbor_offsets(),
            forall|k: int| 0 <= k < candidates@.len() ==> is_free_neighbor(coords@, #[trigger] candidates@[k]),
            forall|k: int| 0 <= k < candidates@.len() ==> -17 <= (#[trigger] candidates@[k]).0 <= 17,
        decreases coords@.len() - i,
    {
        let mut d: usize = 0;
        while d < 4
            invariant
                0 <= d <= 4,
                i < coords@.len(),
                0 <= rightmost < coords@.len(),
                forall|j: int| 0 <= j < coords@.len() ==> (#[trigger] coords@[j]).0 <= coords@[rightmost].0,
                i > rightmost ==> candidates@.len() > 0,
                (i == rightmost && d > 1) ==> candidates@.len() > 0,
                *coords == *old(coords),
                coords_bounded(coords@),
                offsets@ == neighbor_offsets(),
                forall|k: int| 0 <= k < candidates@.len() ==> is_free_neighbor(coords@, #[trigger] candidates@[k]),
                forall|k: int| 0 <= k < candidates@.len() ==> -17 <= (#[trigger] candidates@[k]).0 <= 17,
            decreases 4 - d,
        {
            let (ex, ey) = coords[i];
            let (dx, dy) = offsets[d];
            let shifted_point = (ex + dx, ey + dy);
            let free = !contains_coords(coords, shifted_point);
            proof {
                if i == rightmost && d == 1 {
                    assert(shifted_point.0 == coords@[rightmost].0 + 1);
                    if !free {
                        let j = choose|j: int| 0 <= j < coords@.len() && (#[trigger] coords@[j]).0 == shifted_point.0 && coords@[j].1 == shifted_point.1;
                        assert(coords@[j].0 <= coords@[rightmost].0);
                    }
                }
            }
            if free {
                proof {
                    assert(shifted_point.0 == coords@[i as int].0 + neighbor_offsets()[d as int].0);
                    if coords@.contains(shifted_point) {
                        let j = choose|j: int| 0 <= j < coords@.len() && coords@[j] == shifted_point;
                        assert(coords@[j].0 == shifted_point.0 && coords@[j].1 == shifted_point.1);
                    }
                }
                candidates.push(shifted_point);
            }
            d = d + 1;
        }
        i = i + 1;
    }
    // There always is a candidate: the square with the largest x has a free right neighbor.
    let chosen = random_choice(candidates.as_slice());
    proof {
        let k = choose|k: int| 0 <= k < candidates@.len() && candidates@[k] == chosen;
        assert(is_free_neighbor(coords@, candidates@[k]));
    }
    coords.push(chosen);
    proof {
        assert(coords@.drop_last() =~= old(coords)@);
    }
}


/// `a / n` rounded to the nearest integer, halves away from zero.
pub open spec fn round_div(a: int, n: int) -> int
    recommends
        n > 0,
{
    if a >= 0 {
        (2 * a + n) / (2 * n)
    } else {
        -((2 * (-a) + n) / (2 * n))
    }
}

pub open spec fn sum_x(c: Seq<BlockRelativeCoords>) -> int
    decreases c.len(),
{
    if c.len() == 0 {
        0
    } else {
        sum_x(c.drop_last()) + c.last().0
    }
}

pub open spec fn sum_y(c: Seq<BlockRelativeCoords>) -> int
    decreases c.len(),
{
    if c.len() == 0 {
        0
    } else {
        sum_y(c.drop_last()) + c.last().1
    }
}

/// The squares moved so that the rounded mean of their coordinates is (0, 0),
/// which makes the block turn around its middle.
pub open spec fn centered(c: Seq<BlockRelativeCoords>) -> Seq<BlockRelativeCoords> {
    let cx = round_div(sum_x(c), c.len() as int);
    let cy = round_div(sum_y(c), c.len() as int);
    Seq::new(c.len(), |i: int| ((c[i].0 - cx) as i8, (c[i].1 - cy) as i8))
}

proof fn lemma_sum_bounds(c: Seq<BlockRelativeCoords>)
    requires
        forall|i: int| 0 <= i < c.len() ==> -8 <= #[trigger] c[i].0 <= 8 && -8 <= c[i].1 <= 8,
    ensures
        -8 * c.len() <= sum_x(c) <= 8 * c.len(),
        -8 * c.len() <= sum_y(c) <= 8 * c.len(),
    decreases c.len(),
{
    if c.len() > 0 {
        assert forall|i: int| 0 <= i < c.drop_last().len() implies -8 <= #[trigger] c.drop_last()[i].0 <= 8 && -8 <= c.drop_last()[i].1 <= 8 by {
            assert(c.drop_last()[i] == c[i]);
        }
        lemma_sum_bounds(c.drop_last());
    }
}

fn round_div_exec(a: i32, n: i32) -> (r: i32)
    requires
        n > 0,
        -10000 <= a <= 10000,
        n <= 10000,
    ensures
        r == round_div(a as int, n as int),
{
    if a >= 0 {
        (2 * a + n) / (2 * n)
    } else {
        -((2 * (-a) + n) / (2 * n))
    }
}

proof fn lemma_round_div_bounds(a: int, n: int)
    requires
        n > 0,
        -8 * n <= a <= 8 * n,
    ensures
        -8 <= round_div(a, n) <= 8,
{
    if a >= 0 {
        assert((2 * a + n) <= 17 * n);
        assert((2 * a + n) / (2 * n) <= 8) by (nonlinear_arith)
            requires
                0 <= 2 * a + n <= 17 * n,
                n > 0,
        ;
    } else {
        assert((2 * (-a) + n) / (2 * n) <= 8) by (nonlinear_arith)
            requires
                0 <= 2 * (-a) + n <= 17 * n,
                n > 0,
        ;
        assert((2 * (-a) + n) / (2 * n) >= 0) by (nonlinear_arith)
            requires
                0 <= 2 * (-a) + n,
                n > 0,
        ;
    }
}

/// Moves the squares so that the block turns around its middle (see `centered`).
fn fix_rotation_center(coords: &mut Vec<BlockRelativeCoords>)
    requires
        0 < old(coords)@.len() <= 100,
        forall|i: int| 0 <= i < old(coords)@.len() ==> -8 <= #[trigger] old(coords)@[i].0 <= 8 && -8 <= old(coords)@[i].1 <= 8,
    ensures
        final(coords)@ == centered(old(coords)@),
        coords_bounded(final(coords)@),
{
    let mut x_sum: i32 = 0;
    let mut y_sum: i32 = 0;
    let mut i: usize = 0;
    while i < coords.len()
        invariant
            0 <= i <= coords@.len(),
            coords@.len() <= 100,
            *coords == *old(coords),
            forall|k: int| 0 <= k < coords@.len() ==> -8 <= #[trigger] coords@[k].0 <= 8 && -8 <= coords@[k].1 <= 8,
            x_sum == sum_x(coords@.take(i as int)),
            y_sum == sum_y(coords@.take(i as int)),
            -8 * i <= x_sum <= 8 * i,
            -8 * i <= y_sum <= 8 * i,
        decreases coords@.len() - i,
    {
        proof {
            assert(coords@.take(i + 1).drop_last() =~= coords@.take(i as int));
        }
        x_sum = x_sum + coords[i].0 as i32;
        y_sum = y_sum + coords[i].1 as i32;
        i = i + 1;
    }
    proof {
        assert(coords@.take(coords@.len() as int) =~= coords@);
        lemma_round_div_bounds(x_sum as int, coords@.len() as int);
        lemma_round_div_bounds(y_sum as int, coords@.len() as int);
    }
    let n = coords.len() as i32;
    let old_center_x = round_div_exec(x_sum, n) as i8;
    let old_center_y = round_div_exec(y_sum, n) as i8;
    let ghost start = coords@;
    let mut j: usize = 0;
    while j < coords.len()
        invariant
            0 <= j <= coords@.len(),
            coords@.len() == start.len(),
            start == old(coords)@,
            -8 <= old_center_x <= 8,
            -8 <= old_center_y <= 8,
            old_center_x == round_div(sum_x(start), start.len() as int),
            old_center_y == round_div(sum_y(start), start.len() as int),
            forall|k: int| 0 <= k < start.len() ==> -8 <= #[trigger] start[k].0 <= 8 && -8 <= start[k].1 <= 8,
            forall|k: int| 0 <= k < j ==> #[trigger] coords@[k] == centered(start)[k],
            forall|k: int| j <= k < coords@.len() ==> #[trigger] coords@[k] == start[k],
        decreases coords@.len() - j,
    {
        let (x, y) = coords[j];
        coords.set(j, (x - old_center_x, y - old_center_y));
        j = j + 1;
    }
    proof {
        assert(coords@ =~= centered(start));
    }
}

/// The coordinates of the squares of a block whose center is at `center`.
pub open spec fn add_center(center: PlayerPoint, relative: Seq<BlockRelativeCoords>) -> Seq<PlayerPoint> {
    Seq::new(relative.len(), |i: int| ((center.0 + relative[i].0) as i32, (center.1 + relative[i].1) as i32))
}

/// A center far enough from the limits of `i32` that nearby squares can be computed.
pub open spec fn center_ok(c: PlayerPoint) -> bool {
    i32::MIN + 128 <= c.0 <= i32::MAX - 128 && i32::MIN + 128 <= c.1 <= i32::MAX - 128
}

/// The relative coordinates after turning the block once in the given rotate mode.
pub open spec fn rotated_relative(c: Seq<BlockRelativeCoords>, mode: RotateMode, prefer_counter_clockwise: bool) -> Seq<BlockRelativeCoords> {
    match mode {
        RotateMode::NoRotating => c,
        RotateMode::NextClockwiseThenBack => rotated_clockwise(c),
        RotateMode::NextCounterClockwiseThenBack => rotated_counter_clockwise(c),
        RotateMode::FullRotating => if prefer_counter_clockwise {
            rotated_counter_clockwise(c)
        } else {
            rotated_clockwise(c)
        },
    }
}

/// The rotate mode after one turn: the two-position modes alternate.
pub open spec fn next_rotate_mode(mode: RotateMode) -> RotateMode {
    match mode {
        RotateMode::NextCounterClockwiseThenBack => RotateMode::NextClockwiseThenBack,
        RotateMode::NextClockwiseThenBack => RotateMode::NextCounterClockwiseThenBack,
        other => other,
    }
}

/// The block that a player controls before it lands.
#[derive(Debug)]
pub struct FallingBlock {
    pub square_content: SquareContent,
    pub has_been_in_hold: bool,
    pub center: PlayerPoint,
    pub relative_coords: Vec<BlockRelativeCoords>,
    pub rotate_mode: RotateMode,
}

impl FallingBlock {
    /// Coordinates stay near the center, a drill keeps its shape and does not turn,
    /// and the center is far from the limits of `i32`.
    pub open spec fn wf(&self) -> bool {
        &&& coords_bounded(self.relative_coords@)
        &&& self.square_content.spec_is_drill() ==> {
            &&& self.rotate_mode == RotateMode::NoRotating
            &&& forall|i: int| 0 <= i < self.relative_coords@.len() ==> in_drill_shape(#[trigger] self.relative_coords@[i])
        }
        &&& center_ok(self.center)
    }

    /// A new block of the given type, not yet placed (its center is (0, 0)).
    pub fn new(block_type: BlockType) -> (r: FallingBlock)
        ensures
            r.wf(),
            r.relative_coords@.len() > 0,
            r.center == (0i32, 0i32),
            !r.has_been_in_hold,
            r.rotate_mode == initial_rotate_mode(r.relative_coords@, r.square_content),
            match block_type {
                BlockType::Normal(shape) => r.square_content == SquareContent::Normal([(' ', shape.spec_color()), (' ', shape.spec_color())])
                    && r.relative_coords@ == shape.spec_coords(),
                BlockType::Cursed(shape) => r.square_content == SquareContent::Normal([(' ', shape.spec_color()), (' ', shape.spec_color())])
                    && exists|q: BlockRelativeCoords| is_free_neighbor(shape.spec_coords(), q)
                        && r.relative_coords@ == centered(shape.spec_coords().push(q)),
                BlockType::Drill => r.square_content == (SquareContent::FallingDrill { animation_counter: 0 })
                    && r.relative_coords@ == drill_coords(),
                BlockType::Bomb => (r.square_content == (SquareContent::Bomb { timer: 3, id: None })
                    || r.square_content == (SquareContent::Bomb { timer: 15, id: None }))
                    && r.relative_coords@ == Shape::O.spec_coords(),
            },
    {
        let content;
        let mut coords: Vec<BlockRelativeCoords>;
        match block_type {
            BlockType::Normal(shape) => {
                content = SquareContent::with_color(shape.color());
                coords = shape.coords();
            },
            BlockType::Cursed(shape) => {
                content = SquareContent::with_color(shape.color());
                coords = shape.coords();
                let ghost base = coords@;
                add_extra_square(&mut coords);
                proof {
                    assert(coords@ =~= base.push(coords@.last()));
                    assert forall|i: int| 0 <= i < coords@.len() implies -8 <= #[trigger] coords@[i].0 <= 8 && -8 <= coords@[i].1 <= 8 by {
                        if i < base.len() {
                            assert(coords@[i] == base[i]);
                        } else {
                            let q = coords@.last();
                            let (k, d) = choose|k: int, d: int| 0 <= k < base.len() && 0 <= d < 4 && q.0 == (#[trigger] base[k]).0 + (#[trigger] neighbor_offsets()[d]).0
                                && q.1 == base[k].1 + neighbor_offsets()[d].1;
                        }
                    }
                }
                let ghost with_extra = coords@;
                fix_rotation_center(&mut coords);
                proof {
                    assert(is_free_neighbor(base, with_extra.last()));
                    assert(with_extra == base.push(with_extra.last()));
                }
            },
            BlockType::Drill => {
                content = SquareContent::FallingDrill { animation_counter: 0 };
                coords = drill_coords_exec();
            },
            BlockType::Bomb => {
                let initial_timer_value = if random_below(5) == 0 {
                    3
                } else {
                    15
                };
                content = SquareContent::Bomb { timer: initial_timer_value, id: None };
                coords = Shape::O.coords();
            },
        }
        let rotate_mode = choose_initial_rotate_mode(&coords, &content);
        FallingBlock {
            square_content: content,
            // dummy value, changed when the block is spawned
            center: (0, 0),
            rotate_mode,
            relative_coords: coords,
            has_been_in_hold: false,
        }
    }

    /// A normal block of the given shape.
    pub fn normal_from_shape(shape: Shape) -> (r: FallingBlock)
        ensures
            r.wf(),
            r.center == (0i32, 0i32),
            !r.has_been_in_hold,
            r.square_content == SquareContent::Normal([(' ', shape.spec_color()), (' ', shape.spec_color())]),
            r.relative_coords@ == shape.spec_coords(),
            r.rotate_mode == initial_rotate_mode(r.relative_coords@, r.square_content),
    {
        FallingBlock::new(BlockType::Normal(shape))
    }

    /// A random block whose kind depends on the score (see `BlockType::from_score`).
    pub fn from_score(score: usize) -> (r: FallingBlock)
        ensures
            r.wf(),
            r.relative_coords@.len() > 0,
            r.center == (0i32, 0i32),
            !r.has_been_in_hold,
            r.rotate_mode == initial_rotate_mode(r.relative_coords@, r.square_content),
    {
        FallingBlock::new(BlockType::from_score(score))
    }

    /// The largest relative y coordinate, i.e. the lowest square.
    pub open spec fn lowest_relative_y(c: Seq<BlockRelativeCoords>) -> int
        decreases c.len(),
    {
        if c.len() <= 1 {
            c[0].1 as int
        } else {
            let m = Self::lowest_relative_y(c.drop_last());
            if c.last().1 > m {
                c.last().1 as int
            } else {
                m
            }
        }
    }

    /// Places the block so that its lowest square is just above the spawn point.
    /// A bomb gets a new tick counter.
    pub fn spawn_at(&mut self, spawn_point: PlayerPoint)
        requires
            old(self).wf(),
            old(self).relative_coords@.len() > 0,
            -0x4000_0000 <= spawn_point.0 <= 0x4000_0000,
            -0x4000_0000 <= spawn_point.1 <= 0x4000_0000,
        ensures
            final(self).wf(),
            final(self).center == (spawn_point.0, (spawn_point.1 - (Self::lowest_relative_y(old(self).relative_coords@) + 1)) as i32),
            final(self).relative_coords@ == old(self).relative_coords@,
            final(self).rotate_mode == old(self).rotate_mode,
            final(self).has_been_in_hold == old(self).has_been_in_hold,
            final(self).square_content == match old(self).square_content {
                SquareContent::Bomb { timer, .. } => SquareContent::Bomb { timer, id: None },
                other => other,
            },
    {
        let (spawn_x, spawn_y) = spawn_point;
        let mut lowest: i8 = self.relative_coords[0].1;
        let mut i: usize = 1;
        proof {
            assert(self.relative_coords@.take(1).len() == 1);
            assert(-16 <= self.relative_coords@[0].0 <= 16 && -16 <= self.relative_coords@[0].1 <= 16);
        }
        while i < self.relative_coords.len()
            invariant
                1 <= i <= self.relative_coords@.len(),
                *self == *old(self),
                coords_bounded(self.relative_coords@),
                -16 <= lowest <= 16,
                lowest == Self::lowest_relative_y(self.relative_coords@.take(i as int)),
            decreases self.relative_coords@.len() - i,
        {
            proof {
                assert(self.relative_coords@.take(i + 1).drop_last() =~= self.relative_coords@.take(i as int));
                assert(-16 <= self.relative_coords@[i as int].0 <= 16 && -16 <= self.relative_coords@[i as int].1 <= 16);
            }
            if self.relative_coords[i].1 > lowest {
                lowest = self.relative_coords[i].1;
            }
            i = i + 1;
        }
        proof {
            assert(self.relative_coords@.take(self.relative_coords@.len() as int) =~= self.relative_coords@);
        }
        let bottom_edge = (lowest as i32) + 1;
        self.center = (spawn_x, spawn_y - bottom_edge);
        // spawned bombs get a new tick counter
        if let SquareContent::Bomb { timer, .. } = self.square_content {
            self.square_content = SquareContent::Bomb { timer, id: None };
        }
    }

    /// The squares relative to the center of the block.
    pub fn get_relative_coords(&self) -> (r: &[BlockRelativeCoords])
        ensures
            r@ == self.relative_coords@,
    {
        self.relative_coords.as_slice()
    }

    fn add_center_exec(&self, relative: &Vec<BlockRelativeCoords>) -> (r: Vec<PlayerPoint>)
        requires
            center_ok(self.center),
            forall|i: int| 0 <= i < relative@.len() ==> -120 <= #[trigger] relative@[i].0 <= 120 && -120 <= relative@[i].1 <= 120,
        ensures
            r@ == add_center(self.center, relative@),
    {
        let (cx, cy) = self.center;
        let mut r: Vec<PlayerPoint> = Vec::new();
        let mut i: usize = 0;
        while i < relative.len()
            invariant
                0 <= i <= relative@.len(),
                center_ok(self.center),
                cx == self.center.0,
                cy == self.center.1,
                forall|k: int| 0 <= k < relative@.len() ==> -120 <= #[trigger] relative@[k].0 <= 120 && -120 <= relative@[k].1 <= 120,
                r@ == add_center(self.center, relative@).take(i as int),
            decreases relative@.len() - i,
        {
            let (dx, dy) = relative[i];
            r.push((cx + dx as i32, cy + dy as i32));
            proof {
                assert(r@ =~= add_center(self.center, relative@).take(i + 1));
            }
            i = i + 1;
        }
        proof {
            assert(r@ =~= add_center(self.center, relative@));
        }
        r
    }

    /// The player coordinates of the squares.
    pub fn get_coords(&self) -> (r: Vec<PlayerPoint>)
        requires
            self.wf(),
        ensures
            r@ == add_center(self.center, self.relative_coords@),
    {
        self.add_center_exec(&self.relative_coords)
    }

    /// Puts the squares at the given player coordinates, around a new center. Like the
    /// squares of every block (see `wf`), they must be within 16 of the new center, and a
    /// drill's squares keep the drill's shape; the game only calls this with squares of a
    /// block it already has, moved together with their center.
    pub fn set_player_coords(&mut self, coords: &[PlayerPoint], new_center: PlayerPoint)
        requires
            old(self).wf(),
            center_ok(new_center),
            forall|i: int| 0 <= i < coords@.len() ==> -16 <= #[trigger] coords@[i].0 - new_center.0 <= 16
                && -16 <= coords@[i].1 - new_center.1 <= 16,
            old(self).square_content.spec_is_drill() ==> forall|i: int| 0 <= i < coords@.len()
                ==> in_drill_shape(((#[trigger] coords@[i].0 - new_center.0) as i8, (coords@[i].1 - new_center.1) as i8)),
        ensures
            final(self).wf(),
            final(self).center == new_center,
            final(self).relative_coords@ == Seq::new(coords@.len(), |i: int| ((coords@[i].0 - new_center.0) as i8, (coords@[i].1 - new_center.1) as i8)),
            final(self).square_content == old(self).square_content,
            final(self).rotate_mode == old(self).rotate_mode,
            final(self).has_been_in_hold == old(self).has_been_in_hold,
    {
        self.center = new_center;
        let (cx, cy) = new_center;
        let mut r: Vec<BlockRelativeCoords> = Vec::new();
        let mut i: usize = 0;
        let ghost target = Seq::new(coords@.len(), |i: int| ((coords@[i].0 - new_center.0) as i8, (coords@[i].1 - new_center.1) as i8));
        while i < coords.len()
            invariant
                0 <= i <= coords@.len(),
                cx == new_center.0,
                cy == new_center.1,
                forall|k: int| 0 <= k < coords@.len() ==> -16 <= #[trigger] coords@[k].0 - new_center.0 <= 16
                    && -16 <= coords@[k].1 - new_center.1 <= 16,
                target == Seq::new(coords@.len(), |i: int| ((coords@[i].0 - new_center.0) as i8, (coords@[i].1 - new_center.1) as i8)),
                r@ == target.take(i as int),
            decreases coords@.len() - i,
        {
            let (x, y) = coords[i];
            r.push(((x - cx) as i8, (y - cy) as i8));
            proof {
                assert(r@ =~= target.take(i + 1));
            }
            i = i + 1;
        }
        proof {
            assert(r@ =~= target);
        }
        self.relative_coords = r;
    }

    fn get_moved_relative_coords(&self, dx: i8, dy: i8) -> (r: Vec<BlockRelativeCoords>)
        requires
            self.wf(),
            -100 <= dx <= 100,
            -100 <= dy <= 100,
        ensures
            r@ == Seq::new(self.relative_coords@.len(), |i: int| ((self.relative_coords@[i].0 + dx) as i8, (self.relative_coords@[i].1 + dy) as i8)),
            forall|i: int| 0 <= i < r@.len() ==> -116 <= #[trigger] r@[i].0 <= 116 && -116 <= r@[i].1 <= 116,
    {
        let ghost target = Seq::new(self.relative_coords@.len(), |i: int| ((self.relative_coords@[i].0 + dx) as i8, (self.relative_coords@[i].1 + dy) as i8));
        let mut r: Vec<BlockRelativeCoords> = Vec::new();
        let mut i: usize = 0;
        while i < self.relative_coords.len()
            invariant
                0 <= i <= self.relative_coords@.len(),
                self.wf(),
                -100 <= dx <= 100,
                -100 <= dy <= 100,
                target == Seq::new(self.relative_coords@.len(), |i: int| ((self.relative_coords@[i].0 + dx) as i8, (self.relative_coords@[i].1 + dy) as i8)),
                r@ == target.take(i as int),
            decreases self.relative_coords@.len() - i,
        {
            let (x, y) = self.relative_coords[i];
            r.push((x + dx, y + dy));
            proof {
                assert(r@ =~= target.take(i + 1));
            }
            i = i + 1;
        }
        proof {
            assert(r@ =~= target);
        }
        r
    }

    fn get_rotated_relative_coords(&self, prefer_counter_clockwise: bool) -> (r: Vec<BlockRelativeCoords>)
        requires
            self.wf(),
        ensures
            r@ == rotated_relative(self.relative_coords@, self.rotate_mode, prefer_counter_clockwise),
            coords_bounded(r@),
    {
        let counter_clockwise = match self.rotate_mode {
            RotateMode::NoRotating => return copy_coords(&self.relative_coords),
            RotateMode::NextClockwiseThenBack => false,
            RotateMode::NextCounterClockwiseThenBack => true,
            RotateMode::FullRotating => prefer_counter_clockwise,
        };
        rotate_coords(&self.relative_coords, !counter_clockwise, false)
    }

    /// Where the squares would be after moving by (dx, dy).
    pub fn get_moved_coords(&self, dx: i8, dy: i8) -> (r: Vec<PlayerPoint>)
        requires
            self.wf(),
            -100 <= dx <= 100,
            -100 <= dy <= 100,
        ensures
            r@ == add_center(self.center, Seq::new(self.relative_coords@.len(), |i: int| ((self.relative_coords@[i].0 + dx) as i8, (self.relative_coords@[i].1 + dy) as i8))),
    {
        let moved = self.get_moved_relative_coords(dx, dy);
        self.add_center_exec(&moved)
    }

    /// Where the squares would be after turning once.
    pub fn get_rotated_coords(&self, prefer_counter_clockwise: bool) -> (r: Vec<PlayerPoint>)
        requires
            self.wf(),
        ensures
            r@ == add_center(self.center, rotated_relative(self.relative_coords@, self.rotate_mode, prefer_counter_clockwise)),
    {
        let rotated = self.get_rotated_relative_coords(prefer_counter_clockwise);
        self.add_center_exec(&rotated)
    }

    /// Moves the block by (dx, dy) ("move" is a keyword).
    pub fn m0v3(&mut self, dx: i8, dy: i8)
        requires
            old(self).wf(),
            center_ok(((old(self).center.0 + dx) as i32, (old(self).center.1 + dy) as i32)),
        ensures
            final(self).wf(),
            final(self).center == ((old(self).center.0 + dx) as i32, (old(self).center.1 + dy) as i32),
            final(self).relative_coords@ == old(self).relative_coords@,
            final(self).square_content == old(self).square_content,
            final(self).rotate_mode == old(self).rotate_mode,
            final(self).has_been_in_hold == old(self).has_been_in_hold,
    {
        let (cx, cy) = self.center;
        self.center = (cx + dx as i32, cy + dy as i32);
    }

    /// Turns the block once; blocks with two positions alternate between them.
    pub fn rotate(&mut self, prefer_counter_clockwise: bool)
        requires
            old(self).wf(),
        ensures
            final(self).wf(),
            final(self).relative_coords@ == rotated_relative(old(self).relative_coords@, old(self).rotate_mode, prefer_counter_clockwise),
            final(self).rotate_mode == next_rotate_mode(old(self).rotate_mode),
            final(self).center == old(self).center,
            final(self).square_content == old(self).square_content,
            final(self).has_been_in_hold == old(self).has_been_in_hold,
    {
        self.relative_coords = self.get_rotated_relative_coords(prefer_counter_clockwise);
        self.rotate_mode = match self.rotate_mode {
            RotateMode::NextCounterClockwiseThenBack => RotateMode::NextClockwiseThenBack,
            RotateMode::NextClockwiseThenBack => RotateMode::NextCounterClockwiseThenBack,
            other => other,
        };
    }
}

} // verus!

verus! {

/// Where new blocks come from: random blocks depending on the score, or always the same kind
/// (useful for testing).
#[derive(Copy, Clone, Debug, PartialEq, Eq, Structural)]
pub enum BlockFactory {
    FromScore,
    Fixed(BlockType),
}

impl BlockFactory {
    /// A new block, not yet placed.
    pub fn make(&self, score: usize) -> (r: FallingBlock)
        ensures
            r.wf(),
            r.relative_coords@.len() > 0,
            r.center == (0i32, 0i32),
            !r.has_been_in_hold,
    {
        match self {
            BlockFactory::FromScore => FallingBlock::from_score(score),
            BlockFactory::Fixed(block_type) => FallingBlock::new(*block_type),
        }
    }
}

} // verus!

verus! {

/// Squares of a block near a safe center stay far from the limits of `i32`.
pub proof fn lemma_add_center_bounds(center: PlayerPoint, relative: Seq<BlockRelativeCoords>)
    requires
        center_ok(center),
        coords_bounded(relative),
    ensures
        forall|k: int| 0 <= k < relative.len() ==> {
            let p = #[trigger] add_center(center, relative)[k];
            &&& center.0 - 16 <= p.0 <= center.0 + 16
            &&& center.1 - 16 <= p.1 <= center.1 + 16
            &&& i32::MIN + 100 <= p.0 <= i32::MAX - 100
            &&& i32::MIN + 100 <= p.1 <= i32::MAX - 100
        },
{
    assert forall|k: int| 0 <= k < relative.len() implies {
        let p = #[trigger] add_center(center, relative)[k];
        &&& center.0 - 16 <= p.0 <= center.0 + 16
        &&& center.1 - 16 <= p.1 <= center.1 + 16
        &&& i32::MIN + 100 <= p.0 <= i32::MAX - 100
        &&& i32::MIN + 100 <= p.1 <= i32::MAX - 100
    } by {
        assert(-16 <= relative[k].0 <= 16 && -16 <= relative[k].1 <= 16);
    }
}

/// Turning keeps the squares near the center.
pub proof fn lemma_rotated_bounded(c: Seq<BlockRelativeCoords>, mode: RotateMode, prefer_counter_clockwise: bool)
    requires
        coords_bounded(c),
    ensures
        coords_bounded(rotated_relative(c, mode, prefer_counter_clockwise)),
        rotated_relative(c, mode, prefer_counter_clockwise).len() == c.len(),
{
    let r = rotated_relative(c, mode, prefer_counter_clockwise);
    assert forall|i: int| 0 <= i < r.len() implies -16 <= #[trigger] r[i].0 <= 16 && -16 <= r[i].1 <= 16 by {
        assert(-16 <= c[i].0 <= 16 && -16 <= c[i].1 <= 16);
    }
}

} // verus!

verus! {

/// A block with two positions (S, Z, I) is back where it started after two turns,
/// whichever way the player prefers to turn, and so is its rotate mode.
pub proof fn law_two_position_blocks_turn_back(c: Seq<BlockRelativeCoords>, mode: RotateMode, first: bool, second: bool)
    requires
        coords_bounded(c),
        mode == RotateMode::NextClockwiseThenBack || mode == RotateMode::NextCounterClockwiseThenBack,
    ensures
        rotated_relative(rotated_relative(c, mode, first), next_rotate_mode(mode), second) == c,
        next_rotate_mode(next_rotate_mode(mode)) == mode,
{
    let once = rotated_relative(c, mode, first);
    let twice = rotated_relative(once, next_rotate_mode(mode), second);
    assert forall|i: int| 0 <= i < c.len() implies #[trigger] twice[i] == c[i] by {
        assert(-16 <= c[i].0 <= 16 && -16 <= c[i].1 <= 16);
    }
    assert(twice =~= c);
}

/// Turning clockwise and then counter-clockwise, or four times the same way, gives the
/// starting position.
pub proof fn law_turns_undo(c: Seq<BlockRelativeCoords>)
    requires
        coords_bounded(c),
    ensures
        rotated_counter_clockwise(rotated_clockwise(c)) == c,
        rotated_clockwise(rotated_counter_clockwise(c)) == c,
        rotated_clockwise(rotated_clockwise(rotated_clockwise(rotated_clockwise(c)))) == c,
        rotated_twice(c) == rotated_clockwise(rotated_clockwise(c)),
{
    assert forall|i: int| 0 <= i < c.len() implies #[trigger] rotated_counter_clockwise(rotated_clockwise(c))[i] == c[i]
        && rotated_clockwise(rotated_counter_clockwise(c))[i] == c[i]
        && rotated_clockwise(rotated_clockwise(rotated_clockwise(rotated_clockwise(c))))[i] == c[i]
        && rotated_twice(c)[i] == rotated_clockwise(rotated_clockwise(c))[i] by {
        assert(-16 <= c[i].0 <= 16 && -16 <= c[i].1 <= 16);
    }
    assert(rotated_counter_clockwise(rotated_clockwise(c)) =~= c);
    assert(rotated_clockwise(rotated_counter_clockwise(c)) =~= c);
    assert(rotated_clockwise(rotated_clockwise(rotated_clockwise(rotated_clockwise(c)))) =~= c);
    assert(rotated_twice(c) =~= rotated_clockwise(rotated_clockwise(c)));
}

} // verus!
