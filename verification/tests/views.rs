use catris::escapes::Color;
use catris::game_logic::game::Mode;
use catris::views::GameKeyAction;
use catris::views::ModeMenuChoice;
use catris::views::game_key_action;
use catris::views::mode_menu_choice;
use catris::views::mode_menu_item;
use catris::views::parse_markup;
use catris::escapes::KeyPress;
use catris::views::check_name;
use catris::views::format_game_duration;
use catris::views::format_player_names;
use catris::views::handle_prompt_key;
use catris::views::trim;
use catris::views::pause_menu;
use catris::views::how_long_ago;
use catris::views::pause_menu_choice;
use catris::views::PauseMenuChoice;
use catris::views::game_is_full;
use catris::views::name_is_in_use;
use catris::views::name_key;
use catris::views::Menu;
use catris::views::PromptAction;
use catris::escapes::TerminalType;
use catris::render::RenderBuffer;
use catris::client::ClientLogger;
use catris::high_scores::GameResult;
use catris::lobby::ClientInfo;
use catris::views::add_name_asking_notes;
use catris::views::high_scores_table_fits;
use catris::views::player_names_fit;
use catris::views::render_game_over_message;
use catris::views::render_header;
use catris::views::render_high_scores_table;
use catris::views::render_lobby_status;
use catris::views::render_pause_screen;
use catris::views::gameplay_tips_fit;
use catris::views::render_gameplay_tips;
use catris::views::text_contains;

fn main_menu() -> Menu {
    Menu {
        items: vec![
            Some("New lobby".to_string()),
            Some("Join an existing lobby".to_string()),
            Some("Quit".to_string()),
        ],
        selected_index: 0,
    }
}

#[test]
fn test_menu_up_and_down() {
    let mut menu = main_menu();
    assert!(!menu.handle_key_press(KeyPress::Down));
    assert_eq!(menu.selected_index, 1);
    assert!(!menu.handle_key_press(KeyPress::Down));
    assert_eq!(menu.selected_index, 2);
    assert!(!menu.handle_key_press(KeyPress::Down));
    assert_eq!(menu.selected_index, 2);
    assert_eq!(menu.selected_text(), "Quit");
    assert!(!menu.handle_key_press(KeyPress::Up));
    assert!(!menu.handle_key_press(KeyPress::Up));
    assert!(!menu.handle_key_press(KeyPress::Up));
    assert_eq!(menu.selected_index, 0);
    assert!(menu.handle_key_press(KeyPress::Enter));
    assert_eq!(menu.selected_text(), "New lobby");
}

#[test]
fn test_menu_skips_separators() {
    let mut menu = Menu {
        items: vec![
            Some("Traditional game".to_string()),
            None,
            Some("Gameplay tips".to_string()),
            Some("Quit".to_string()),
        ],
        selected_index: 0,
    };
    menu.handle_key_press(KeyPress::Down);
    assert_eq!(menu.selected_index, 2);
    menu.handle_key_press(KeyPress::Up);
    assert_eq!(menu.selected_index, 0);
}

#[test]
fn test_menu_letters() {
    let mut menu = main_menu();
    assert!(!menu.handle_key_press(KeyPress::Character('q')));
    assert_eq!(menu.selected_text(), "Quit");
    menu.handle_key_press(KeyPress::Character('J'));
    assert_eq!(menu.selected_index, 1);
    menu.handle_key_press(KeyPress::Character('N'));
    assert_eq!(menu.selected_index, 0);
    menu.handle_key_press(KeyPress::Character('Q'));
    assert_eq!(menu.selected_index, 2);
    menu.handle_key_press(KeyPress::Character('n'));
    assert_eq!(menu.selected_index, 0);
    // no item starts with x: nothing changes
    menu.handle_key_press(KeyPress::Character('x'));
    assert_eq!(menu.selected_index, 0);
    assert!(!menu.handle_key_press(KeyPress::Left));
    assert_eq!(menu.selected_index, 0);
}

#[test]
fn test_format_game_duration() {
    assert_eq!(format_game_duration(0), "0sec");
    assert_eq!(format_game_duration(59), "59sec");
    assert_eq!(format_game_duration(60), "1min");
    assert_eq!(format_game_duration(125), "2min");
}

#[test]
fn test_format_player_names() {
    let names = vec!["Foo".to_string(), "Bar".to_string()];
    assert_eq!(format_player_names(&names, 46), "Foo, Bar");
    let names = vec!["very long name i have".to_string(), "IHaveVeryLongName".to_string()];
    let text = format_player_names(&names, 20);
    assert_eq!(text, "very l..., IHaveV...");
    assert!(text.chars().count() <= 20);
    let names = vec!["Long long name".to_string(), "short name".to_string()];
    assert_eq!(format_player_names(&names, 23), "Long lon..., short name");
}

#[test]
fn test_prompt_keys() {
    let mut text = String::new();
    assert!(matches!(handle_prompt_key(&mut text, KeyPress::Character('a'), false), PromptAction::Continue));
    assert!(matches!(handle_prompt_key(&mut text, KeyPress::Character('b'), false), PromptAction::Continue));
    assert_eq!(text, "ab");
    assert!(matches!(handle_prompt_key(&mut text, KeyPress::BackSpace, false), PromptAction::Continue));
    assert_eq!(text, "a");
    // a line feed before any Enter: the terminal is not in raw mode
    assert!(matches!(handle_prompt_key(&mut text, KeyPress::Character('\n'), false), PromptAction::NotInRawMode));
    assert_eq!(text, "a");
    assert!(matches!(handle_prompt_key(&mut text, KeyPress::Enter, false), PromptAction::Submit));
    // "\r\n" from Windows: the "\n" comes after an Enter
    assert!(matches!(handle_prompt_key(&mut text, KeyPress::Character('\n'), true), PromptAction::Continue));
    assert_eq!(text, "a\n");
    let mut empty = String::new();
    handle_prompt_key(&mut empty, KeyPress::BackSpace, false);
    assert_eq!(empty, "");
}

#[test]
fn test_prompt_text_limit() {
    let mut text = String::new();
    for ch in "VeryVeryLongNameGoesHere".chars() {
        handle_prompt_key(&mut text, KeyPress::Character(ch), false);
    }
    assert_eq!(text, "VeryVeryLongNam");
}

#[test]
fn test_check_name() {
    assert_eq!(check_name(""), Some("Please write a name before pressing Enter.".to_string()));
    assert_eq!(check_name(":]"), Some("The name can't contain a ']' character.".to_string()));
    assert_eq!(check_name("a,b"), Some("The name can't contain a ',' character.".to_string()));
    assert_eq!(check_name("tab\there"), Some("The name can't contain a '\t' character.".to_string()));
    assert_eq!(check_name("my NAME"), None);
    assert_eq!(check_name("Örkki ÿ ¡"), None);
    assert_eq!(check_name("a\u{ad}b"), Some("The name can't contain a '\u{ad}' character.".to_string()));
    assert_eq!(check_name("€"), Some("The name can't contain a '€' character.".to_string()));
}

#[test]
fn test_trim() {
    assert_eq!(trim("   Hello World   "), "Hello World");
    assert_eq!(trim("    "), "");
    assert_eq!(trim(""), "");
    assert_eq!(trim("\t x \n"), "x");
    assert_eq!(trim("WindowsUsesCRLF\n"), "WindowsUsesCRLF");
    for s in ["  a b ", "\u{3000}x\u{2009}", "abc", " \u{85}y"] {
        assert_eq!(trim(s), s.trim());
    }
}

#[test]
fn test_parse_markup() {
    let (cells, color) = parse_markup("  [W]/[A]: move", Color::default_colors());
    let text: String = cells.iter().map(|(c, _)| *c).collect();
    assert_eq!(text, "  W/A: move");
    assert_eq!(cells[2].1, Color::magenta_foreground());
    assert_eq!(cells[3].1, Color::default_colors());
    assert_eq!(color, Color::default_colors());
    // a color can continue on the next line
    let (cells, color) = parse_markup("try {to work", Color::default_colors());
    assert_eq!(color, Color::cyan_foreground());
    assert_eq!(cells.last().unwrap().1, Color::cyan_foreground());
    let (cells, color) = parse_markup("together} now", color);
    assert_eq!(cells[0].1, Color::cyan_foreground());
    assert_eq!(cells.last().unwrap().1, Color::default_colors());
    assert_eq!(color, Color::default_colors());
}

#[test]
fn test_game_key_actions() {
    assert!(matches!(game_key_action(&KeyPress::Character('p'), false), GameKeyAction::TogglePause));
    assert!(matches!(game_key_action(&KeyPress::Character('P'), true), GameKeyAction::TogglePause));
    assert!(matches!(game_key_action(&KeyPress::Character('r'), true), GameKeyAction::ToggleRotatingDirection));
    assert!(matches!(game_key_action(&KeyPress::Up, true), GameKeyAction::PauseMenu));
    assert!(matches!(game_key_action(&KeyPress::Up, false), GameKeyAction::Game));
    assert!(matches!(game_key_action(&KeyPress::Character('h'), false), GameKeyAction::Game));
}

#[test]
fn test_mode_menu() {
    assert_eq!(mode_menu_item(Mode::Ring, 4), "Ring game (4/4 players)");
    assert_eq!(mode_menu_item(Mode::Traditional, 0), "Traditional game (0/6 players)");
    let mut menu = Menu {
        items: vec![
            Some(mode_menu_item(Mode::Traditional, 0)),
            Some(mode_menu_item(Mode::Bottle, 1)),
            Some(mode_menu_item(Mode::Ring, 2)),
            None,
            Some("Gameplay tips".to_string()),
            Some("Quit".to_string()),
        ],
        selected_index: 0,
    };
    assert!(matches!(mode_menu_choice(&menu), ModeMenuChoice::PlayGame(Mode::Traditional)));
    menu.handle_key_press(KeyPress::Character('r'));
    assert!(matches!(mode_menu_choice(&menu), ModeMenuChoice::PlayGame(Mode::Ring)));
    menu.handle_key_press(KeyPress::Down);
    assert_eq!(menu.selected_index, 4);
    assert!(matches!(mode_menu_choice(&menu), ModeMenuChoice::GameplayTips));
    menu.handle_key_press(KeyPress::Character('q'));
    assert!(matches!(mode_menu_choice(&menu), ModeMenuChoice::Quit));
}

fn row_text(buffer: &RenderBuffer, y: usize) -> String {
    (0..80).map(|x| buffer.get_char(x, y)).collect()
}

#[test]
fn test_menu_render_centers_items_and_highlights_selected() {
    let mut menu = Menu {
        items: vec![Some("New lobby".to_string()), None, Some("Quit".to_string())],
        selected_index: 2,
    };
    let mut buffer = RenderBuffer::new(TerminalType::ANSI);
    buffer.resize(80, 24);
    buffer.set_char(40, 11, 'x');
    menu.render(&mut buffer, 10);
    // 35 columns centered on 80: columns 23..58; "New lobby" has 13 spaces before it.
    let expected_first = format!("{}{}{}", " ".repeat(23 + 13), "New lobby", " ".repeat(80 - 23 - 13 - 9));
    assert_eq!(row_text(&buffer, 10), expected_first);
    assert_eq!(buffer.get_color(23, 10), Color::default_colors());
    // the separator leaves its row as it was
    assert_eq!(buffer.get_char(40, 11), 'x');
    assert_eq!(row_text(&buffer, 12).trim(), "Quit");
    assert_eq!(buffer.get_char(23 + 15, 12), 'Q');
    assert_eq!(buffer.get_color(23, 12), Color::black_on_white());
    assert_eq!(buffer.get_color(22, 12), Color::default_colors());
    assert_eq!(buffer.get_color(57, 12), Color::black_on_white());
    assert_eq!(buffer.get_color(58, 12), Color::default_colors());
    menu.selected_index = 0;
    menu.render(&mut buffer, 10);
    assert_eq!(buffer.get_color(30, 10), Color::black_on_white());
}

fn screen() -> RenderBuffer {
    let mut buffer = RenderBuffer::new(TerminalType::ANSI);
    buffer.resize(80, 24);
    buffer
}

#[test]
fn test_render_game_over_message() {
    let mut buffer = screen();
    render_game_over_message(&mut buffer, 125, 1234, true);
    assert_eq!(row_text(&buffer, 2).trim(), "Game over :)");
    let line = "The game lasted 2min and it ended with score 1234.";
    assert_eq!(row_text(&buffer, 3).trim(), line);
    let start = 40 - line.len() / 2;
    assert_eq!(buffer.get_char(start, 3), 'T');
    let score_start = start + line.len() - 5;
    assert_eq!(buffer.get_char(score_start, 3), '1');
    assert_eq!(buffer.get_color(score_start, 3), Color::cyan_foreground());
    assert_eq!(buffer.get_color(score_start + 3, 3), Color::cyan_foreground());
    assert_eq!(buffer.get_color(score_start - 1, 3), Color::default_colors());
    assert_eq!(buffer.get_color(score_start + 4, 3), Color::default_colors());

    let mut buffer = screen();
    render_game_over_message(&mut buffer, 5, 0, false);
    assert_eq!(row_text(&buffer, 2).trim(), "Game over :(");
    assert_eq!(row_text(&buffer, 3).trim(), "The game lasted 5sec and it ended with score 0.");
}

#[test]
fn test_render_header() {
    let mut buffer = screen();
    render_header(&mut buffer, Mode::Ring, true);
    let row = row_text(&buffer, 6);
    let title = " HIGH SCORES: Ring game with multiplayer ";
    let start = 40 - title.len() / 2;
    assert_eq!(&row[start..start + title.len()], title);
    assert!(row[..start].chars().all(|c| c == '='));
    assert!(row[start + title.len()..].chars().all(|c| c == '='));
    assert_eq!(row_text(&buffer, 7).trim(), "");
}

fn client(client_id: u64, name: &str, color: u8) -> ClientInfo {
    ClientInfo {
        client_id,
        logger: ClientLogger { client_id },
        name: name.to_string(),
        color,
    }
}

#[test]
fn test_render_lobby_status() {
    let clients = vec![client(7, "Alice", 31), client(8, "Bob", 32)];
    let mut buffer = screen();
    render_lobby_status(&mut buffer, "ABC123", false, &clients, 8);
    assert_eq!(row_text(&buffer, 2).trim_end(), "   Lobby ID: ABC123 (press i to hide)");
    assert_eq!(buffer.get_color(19, 2), Color::gray_foreground());
    assert_eq!(buffer.get_color(18, 2), Color::default_colors());
    assert_eq!(row_text(&buffer, 5).trim_end(), "      1. Alice");
    assert_eq!(row_text(&buffer, 6).trim_end(), "      2. Bob (you)");
    assert_eq!(buffer.get_color(9, 5), Color { fg: 31, bg: 0 });
    assert_eq!(buffer.get_color(12, 6), Color::gray_foreground());

    let mut buffer = screen();
    render_lobby_status(&mut buffer, "ABC123", true, &clients, 1);
    assert_eq!(row_text(&buffer, 2).trim_end(), "   Lobby ID: ****** (press i to show)");
    assert_eq!(row_text(&buffer, 6).trim_end(), "      2. Bob");
}

#[test]
fn test_render_pause_screen() {
    let menu = Menu {
        items: vec![Some("Continue playing".to_string()), Some("Quit game".to_string())],
        selected_index: 1,
    };
    let mut buffer = screen();
    render_pause_screen(&mut buffer, &menu);
    // 16 lines centered on 24 rows: from row 4 down
    assert_eq!(row_text(&buffer, 4).trim(), "o============================================================o");
    assert!(row_text(&buffer, 7).contains("Game paused"));
    assert_eq!(buffer.get_color(9, 4), Color::green_foreground());
    assert_eq!(row_text(&buffer, 19).trim(), "o============================================================o");
    assert!(row_text(&buffer, 11).contains("Continue playing"));
    assert!(row_text(&buffer, 12).contains("Quit game"));
    assert_eq!(buffer.get_color(40, 12), Color::black_on_white());
    assert_eq!(buffer.get_color(40, 11), Color::default_colors());
    // the frame's sides stay on the menu's rows
    assert_eq!(buffer.get_char(9, 11), '|');
}

#[test]
fn test_add_name_asking_notes() {
    let mut buffer = screen();
    add_name_asking_notes(&mut buffer);
    assert_eq!(row_text(&buffer, 17).trim(), "If you play well, your name will be");
    assert_eq!(row_text(&buffer, 19).trim(), "");
    assert_eq!(row_text(&buffer, 21).trim(), "connect 5 or more times within the same minute.");
}

fn game_result(score: usize, players: &[&str]) -> GameResult {
    GameResult {
        mode: Mode::Traditional,
        score,
        duration_secs: 123,
        duration_nanos: 0,
        players: players.iter().map(|p| p.to_string()).collect(),
        timestamp: None,
    }
}

#[test]
fn test_render_high_scores_table() {
    let results = vec![game_result(4000, &["Alice"]), game_result(55, &["Bob"])];
    let whens = vec!["now".to_string(), "3 days ago".to_string()];
    let mut buffer = screen();
    assert!(high_scores_table_fits(&buffer, &results, &whens, Some(1), false));
    render_high_scores_table(&mut buffer, &results, &whens, Some(1), false);
    assert!(row_text(&buffer, 8).starts_with("| Score | Duration | When       | Player "));
    assert!(row_text(&buffer, 9).starts_with("|-------|----------|------------|--------"));
    assert!(row_text(&buffer, 10).starts_with("| 4000  | 2min     | now        | Alice  "));
    assert!(row_text(&buffer, 11).starts_with("| 55    | 2min     | 3 days ago | Bob    "));
    assert_eq!(row_text(&buffer, 12).trim(), "");
    assert_eq!(buffer.get_color(3, 11), Color::green_background());
    assert_eq!(buffer.get_color(70, 11), Color::green_background());
    assert_eq!(buffer.get_color(3, 10), Color::default_colors());

    // too many results for the rows
    let many: Vec<GameResult> = (0..15).map(|i| game_result(i, &["X"])).collect();
    let many_whens: Vec<String> = (0..15).map(|_| "-".to_string()).collect();
    assert!(!high_scores_table_fits(&buffer, &many, &many_whens, None, true));
    // a "when" text for every result is needed
    assert!(!high_scores_table_fits(&buffer, &results, &many_whens, None, true));
}

#[test]
fn test_player_names_fit() {
    let names = vec!["Alice".to_string(), "Bob".to_string()];
    assert!(player_names_fit(&names, 10));
    // "..., Bob" is the shortest form
    assert!(player_names_fit(&names, 8));
    assert!(!player_names_fit(&names, 7));
    assert!(!player_names_fit(&vec![], 100));
}

#[test]
fn test_text_contains() {
    assert!(text_contains("  [Ctrl+C], [Ctrl+D]", "Ctrl+"));
    assert!(text_contains("abc", "abc"));
    assert!(text_contains("abc", ""));
    assert!(!text_contains("ab", "abc"));
    assert!(!text_contains("Ctrl C", "Ctrl+"));
}

#[test]
fn test_render_gameplay_tips() {
    let menu = Menu {
        items: vec![Some("Back to menu".to_string())],
        selected_index: 0,
    };
    let mut buffer = screen();
    assert!(gameplay_tips_fit(80, false));
    render_gameplay_tips(&mut buffer, false, &menu);
    assert_eq!(row_text(&buffer, 0).trim(), "");
    assert_eq!(row_text(&buffer, 1).trim_end(), "  Keys:");
    assert_eq!(row_text(&buffer, 2).trim_end(), "    Ctrl+C, Ctrl+D or Ctrl+Q: quit");
    assert_eq!(buffer.get_color(4, 2), Color::magenta_foreground());
    assert_eq!(buffer.get_color(10, 2), Color::default_colors());
    // "{You play together}" is emphasized, and the emphasis ends with the brace
    let row = row_text(&buffer, 10);
    let start = row.find("You play together").unwrap();
    assert_eq!(buffer.get_color(start, 10), Color::cyan_foreground());
    assert_eq!(buffer.get_color(start + 17, 10), Color::default_colors());
    // the emphasis that starts on one line goes on to the next one
    let row = row_text(&buffer, 17);
    assert!(row.starts_with("  playing area to do"));
    assert_eq!(buffer.get_color(2, 17), Color::cyan_foreground());
    assert_eq!(buffer.get_color(15, 17), Color::default_colors());
    assert_eq!(row_text(&buffer, 19).trim(), "Back to menu");
    assert_eq!(buffer.get_color(40, 19), Color::black_on_white());

    // keys with Ctrl are left out for web sockets
    let mut buffer = screen();
    render_gameplay_tips(&mut buffer, true, &menu);
    assert_eq!(row_text(&buffer, 1).trim_end(), "  Keys:");
    assert!(row_text(&buffer, 2).starts_with("    W/A/S/D or"));
    assert_eq!(row_text(&buffer, 16).trim(), "");
}

#[test]
fn test_name_in_use_ignores_case() {
    let used = vec![name_key("my NAME"), name_key("Alice")];
    assert_eq!(used[0], "my name");
    assert!(name_is_in_use("MY name", &used));
    assert!(name_is_in_use("alice", &used));
    assert!(!name_is_in_use("Bob", &used));
    assert!(!name_is_in_use("my name2", &used));
    assert!(!name_is_in_use("Alice", &Vec::new()));
}

#[test]
fn test_game_is_full() {
    assert!(game_is_full(Mode::Ring, 4));
    assert!(!game_is_full(Mode::Ring, 3));
    assert!(game_is_full(Mode::Traditional, Mode::Traditional.max_players()));
    assert!(!game_is_full(Mode::Bottle, 0));
}

#[test]
fn test_pause_menu_choices() {
    let mut menu = pause_menu();
    assert_eq!(menu.selected_text(), "Continue playing");
    assert!(matches!(pause_menu_choice(&menu), PauseMenuChoice::ContinuePlaying));
    menu.handle_key_press(KeyPress::Down);
    assert_eq!(menu.selected_text(), "Quit game");
    assert!(matches!(pause_menu_choice(&menu), PauseMenuChoice::QuitGame));
}

#[test]
fn test_how_long_ago_texts() {
    assert_eq!(how_long_ago(0, 0, 0), "now");
    assert_eq!(how_long_ago(1, 0, 0), "1 seconds ago");
    assert_eq!(how_long_ago(59, 0, 0), "59 seconds ago");
    assert_eq!(how_long_ago(60, 0, 0), "1 minutes ago");
    assert_eq!(how_long_ago(7200, 0, 0), "2 hours ago");
    assert_eq!(how_long_ago(3 * 86400, 0, 0), "3 days ago");
    assert_eq!(how_long_ago(14 * 86400, 0, 0), "2 weeks ago");
    assert_eq!(how_long_ago(40 * 86400, 1, 0), "1 months ago");
    assert_eq!(how_long_ago(100 * 86400, 3, 0), "3 months ago");
    assert_eq!(how_long_ago(400 * 86400, 13, 1), "1 years ago");
    assert_eq!(how_long_ago(800 * 86400, 26, 2), "2 years ago");
    assert_eq!(how_long_ago(40 * 86400, 0, 0), "1 month ago");
    assert_eq!(how_long_ago(-5, 0, 0), "-5 seconds ago");
    assert_eq!(how_long_ago(-120, 0, 0), "-2 minutes ago");
}
