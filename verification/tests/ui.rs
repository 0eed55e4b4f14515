use catris::client::ClientLogger;
use catris::escapes::TerminalType;
use catris::game_logic::blocks::BlockFactory;
use catris::game_logic::blocks::BlockType;
use catris::game_logic::blocks::Shape;
use catris::game_logic::game::Game;
use catris::game_logic::game::Mode;
use catris::ingame_ui::get_relative_direction_letter;
use catris::ingame_ui::get_size_without_stuff_on_side;
use catris::ingame_ui::render;
use catris::ingame_ui::wrap_player_name;
use catris::ingame_ui::wrap_text;
use catris::ingame_ui::wrap_text_ignoring_whitespace;
use catris::lobby::ClientInfo;
use catris::render::RenderBuffer;

fn game_with_players(mode: Mode, names: &[&str]) -> Game {
    let mut game = Game::new(mode);
    game.set_block_factory(BlockFactory::Fixed(BlockType::Normal(Shape::L)));
    for (i, name) in names.iter().enumerate() {
        assert!(game.add_player(&ClientInfo {
            name: name.to_string(),
            client_id: i as u64,
            color: 31 + i as u8,
            logger: ClientLogger { client_id: i as u64 },
        }));
    }
    game
}

fn row_text(buffer: &RenderBuffer, y: usize) -> String {
    (0..buffer.width).map(|x| buffer.get_char(x, y)).collect()
}

#[test]
fn test_relative_direction_letters() {
    assert_eq!(get_relative_direction_letter((0, 1), (0, 1)), 'w');
    assert_eq!(get_relative_direction_letter((0, 1), (1, 0)), 'a');
    assert_eq!(get_relative_direction_letter((0, 1), (0, -1)), 's');
    assert_eq!(get_relative_direction_letter((0, 1), (-1, 0)), 'd');

    // every player sees every other direction on a side of its own
    let dirs: [(i16, i16); 4] = [(0, 1), (1, 0), (0, -1), (-1, 0)];
    for d in dirs {
        assert_eq!(get_relative_direction_letter(d, d), 'w');
        let mut letters: Vec<char> = dirs.iter().map(|n| get_relative_direction_letter(d, *n)).collect();
        letters.sort();
        assert_eq!(letters, vec!['a', 'd', 's', 'w']);
        // turning by a quarter gives 'a', the opposite gives 's', three quarters 'd'
        assert_eq!(get_relative_direction_letter(d, (d.1, -d.0)), 'a');
        assert_eq!(get_relative_direction_letter(d, (-d.0, -d.1)), 's');
        assert_eq!(get_relative_direction_letter(d, (-d.1, d.0)), 'd');
    }
}

#[test]
fn test_wrap_text() {
    assert_eq!(wrap_text("hello world foo", 12), vec!["hello world", "foo"]);
    assert_eq!(wrap_text("  hello   world  ", 12), vec!["hello world"]);
    assert_eq!(wrap_text("abcdefghijklmno", 6), vec!["abcdef", "ghijkl", "mno"]);
    assert_eq!(wrap_text("ab abcdefgh", 6), vec!["ab abc", "defgh"]);
    assert_eq!(wrap_text("", 6), Vec::<String>::new());
    assert_eq!(wrap_text("   ", 6), Vec::<String>::new());
}

#[test]
fn test_wrap_text_ignoring_whitespace() {
    assert_eq!(wrap_text_ignoring_whitespace("ab cd ef", 3), vec!["ab ", "cd ", "ef"]);
    assert_eq!(wrap_text_ignoring_whitespace("abcdef", 3), vec!["abc", "def"]);
    assert_eq!(wrap_text_ignoring_whitespace("", 3), Vec::<String>::new());
    // nothing is lost or added
    let text = "Very Long Name Here";
    assert_eq!(wrap_text_ignoring_whitespace(text, 6).concat(), text);
    assert!(wrap_text_ignoring_whitespace(text, 6).iter().all(|l| l.chars().count() <= 6));
}

#[test]
fn test_wrap_player_name() {
    assert_eq!(wrap_player_name("Alice", 'w'), vec!["   Alice    "]);
    assert_eq!(wrap_player_name("Alice", 's'), vec!["   Alice    "]);
    assert_eq!(wrap_player_name("Alice", 'a'), vec!["      ", "Alice "]);
    assert_eq!(wrap_player_name("Alice", 'd'), vec!["      ", " Alice"]);
    assert_eq!(wrap_player_name("Very Long Name X", 'a'), vec!["Very  ", "Long  ", "Name X"]);
    // too many rows when wrapped at spaces: cut anywhere
    assert_eq!(wrap_player_name("a b c d e", 'w'), vec![" a b c d e  "]);
    assert_eq!(wrap_player_name("ab cdefg hijk", 'a'), vec!["ab    ", "cdefg ", "hijk  "]);
    assert_eq!(wrap_player_name("abcd efgh ijkl mn", 'a'), vec!["abcd e", "fgh ij", "kl mn "]);
    assert_eq!(wrap_player_name("aaaa bbbb cccc dd", 'a'), vec!["aaaa b", "bbb cc", "cc dd "]);
    assert_eq!(wrap_player_name("", 'w'), Vec::<String>::new());
}

#[test]
fn test_size_without_stuff_on_side() {
    let game = game_with_players(Mode::Traditional, &["Alice"]);
    assert_eq!(get_size_without_stuff_on_side(&game), (22, 23));
    let game = game_with_players(Mode::Traditional, &["Alice", "Bob"]);
    assert_eq!(get_size_without_stuff_on_side(&game), (30, 23));
    let game = game_with_players(Mode::Bottle, &["Alice", "Bob"]);
    assert_eq!(get_size_without_stuff_on_side(&game), (40, 23));
    let game = game_with_players(Mode::Ring, &["Alice"]);
    assert_eq!(get_size_without_stuff_on_side(&game), (76, 39));
}

#[test]
fn test_render_traditional() {
    let game = game_with_players(Mode::Traditional, &["Alice"]);
    let mut buffer = RenderBuffer::new(TerminalType::ANSI);
    render(&game, &mut buffer, 0, false, true, "DHJKLM");
    assert_eq!((buffer.width, buffer.height), (80, 24));
    assert!(row_text(&buffer, 0).starts_with("        Alice        "));
    assert!(row_text(&buffer, 1).starts_with("o====================o"));
    assert!(row_text(&buffer, 2).starts_with("|                    |"));
    assert!(row_text(&buffer, 22).starts_with("o--------------------o"));
    assert!(row_text(&buffer, 4)[24..].starts_with("Lobby ID: DHJKLM"));
    assert!(row_text(&buffer, 5)[24..].starts_with("Score: 0"));
    assert_eq!(buffer.get_color(24, 5).fg, 36);
    assert!(row_text(&buffer, 6)[24..].starts_with("Counter-clockwise"));
    assert!(row_text(&buffer, 8)[24..].starts_with("Next:"));
    assert!(row_text(&buffer, 16)[24..].starts_with("Nothing in hold"));
    assert!(row_text(&buffer, 17)[24..].starts_with("   (press h)"));
    // the trace shows where the block lands
    assert!(row_text(&buffer, 21).contains("::"));
}

#[test]
fn test_render_hidden_lobby_id_and_other_player() {
    let game = game_with_players(Mode::Traditional, &["Alice", "Bob"]);
    let mut buffer = RenderBuffer::new(TerminalType::ANSI);
    render(&game, &mut buffer, 1, true, false, "DHJKLM");
    assert!(row_text(&buffer, 1).starts_with("o--------------==============o"));
    assert!(row_text(&buffer, 4)[32..].starts_with("Lobby ID: ******"));
    assert!(!row_text(&buffer, 6).contains("Counter-clockwise"));
}

#[test]
fn test_render_bottle_and_ring() {
    let game = game_with_players(Mode::Bottle, &["Alice"]);
    let mut buffer = RenderBuffer::new(TerminalType::ANSI);
    render(&game, &mut buffer, 0, false, false, "DHJKLM");
    assert_eq!((buffer.width, buffer.height), (80, 24));
    assert!(row_text(&buffer, 0).starts_with("    |"));
    assert!(row_text(&buffer, 21).starts_with("o==================o"));
    assert!(row_text(&buffer, 22).starts_with("       Alice        "));

    let game = game_with_players(Mode::Ring, &["Alice", "Bob"]);
    let mut buffer = RenderBuffer::new(TerminalType::ANSI);
    render(&game, &mut buffer, 0, false, false, "DHJKLM");
    assert_eq!((buffer.width, buffer.height), (96, 39));
    assert!(row_text(&buffer, 0).starts_with("               .o------------------------------------------o."));
    // the player's own name on top of the middle box, the other player's opposite
    assert!(row_text(&buffer, 17).contains("|   Alice    |"));
    assert!(row_text(&buffer, 21).contains("|    Bob     |"));
}
