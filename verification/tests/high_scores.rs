use catris::game_logic::game::Mode;
use catris::high_scores::add_game_result_if_high_score;
use catris::high_scores::check_file_version;
use catris::high_scores::header_version;
use catris::high_scores::line_matches;
use catris::high_scores::mode_to_string;
use catris::high_scores::skip_line;
use catris::high_scores::split_high_score_line;
use catris::high_scores::timestamp_field_is_empty;
use catris::high_scores::parse_timestamp_field;
use catris::high_scores::parse_usize;
use catris::high_scores::FileVersionCheck;
use catris::high_scores::GameResult;

fn result(score: usize, player: &str) -> GameResult {
    GameResult {
        mode: Mode::Traditional,
        score,
        duration_secs: 123,
        duration_nanos: 0,
        players: vec![player.to_string()],
        timestamp: None,
    }
}

fn scores(results: &[GameResult]) -> Vec<usize> {
    results.iter().map(|r| r.score).collect()
}

#[test]
fn test_adding_high_scores() {
    let mut results = vec![result(4000, "Good player"), result(55, "#HashTag#"), result(11, "SinglePlayer")];
    let index = add_game_result_if_high_score(&mut results, result(3000, "Second Place"));
    assert_eq!(results.len(), 4);
    assert_eq!(results[1].players, vec!["Second Place".to_string()]);
    assert_eq!(index, Some(1));
    assert_eq!(scores(&results), vec![4000, 3000, 55, 11]);

    // a new result goes above older ones with the same score
    let index = add_game_result_if_high_score(&mut results, result(55, "New"));
    assert_eq!(index, Some(2));
    assert_eq!(results[2].players, vec!["New".to_string()]);

    // only 5 are kept
    let index = add_game_result_if_high_score(&mut results, result(5, "Bad"));
    assert_eq!(index, None);
    assert_eq!(scores(&results), vec![4000, 3000, 55, 55, 11]);
    let index = add_game_result_if_high_score(&mut results, result(9000, "Best"));
    assert_eq!(index, Some(0));
    assert_eq!(scores(&results), vec![9000, 4000, 3000, 55, 55]);

    let mut empty = vec![];
    assert_eq!(add_game_result_if_high_score(&mut empty, result(0, "Zero")), Some(0));
}

#[test]
fn test_mode_names() {
    assert_eq!(mode_to_string(Mode::Traditional), "traditional");
    assert_eq!(mode_to_string(Mode::Bottle), "bottle");
    assert_eq!(mode_to_string(Mode::Ring), "ring");
}

#[test]
fn test_splitting_lines() {
    let line = split_high_score_line("traditional\t-\t33\t44\tAlice\tBob\tCharlie").unwrap();
    assert_eq!(line.mode_name, "traditional");
    assert_eq!(line.timestamp, "-");
    assert_eq!(line.score, "33");
    assert_eq!(line.duration, "44");
    assert_eq!(line.players, vec!["Alice", "Bob", "Charlie"]);

    let line = split_high_score_line("traditional\t2022-07-02T23:57:22+00:00\t11\t22.75\tSinglePlayer").unwrap();
    assert_eq!(line.timestamp, "2022-07-02T23:57:22+00:00");
    assert_eq!(line.duration, "22.75");
    assert_eq!(line.players, vec!["SinglePlayer"]);

    let line = split_high_score_line("a\tb\tc\td").unwrap();
    assert!(line.players.is_empty());
    assert!(split_high_score_line("a\tb\tc").is_none());
    assert!(split_high_score_line("").is_none());
}

#[test]
fn test_skipped_lines() {
    assert!(skip_line("   # comment line "));
    assert!(skip_line("  "));
    assert!(skip_line(""));
    assert!(skip_line("#traditional\t-\t55\t66\tThis is skipped"));
    assert!(skip_line("# --- upgraded from v3 to v4 ---"));
    assert!(!skip_line("traditional\tABZ019\t55\t66\t#HashTag#"));
}

#[test]
fn test_timestamp_fields() {
    assert!(timestamp_field_is_empty("-"));
    assert!(timestamp_field_is_empty("ABZ019"));
    assert!(!timestamp_field_is_empty("abz019"));
    assert!(!timestamp_field_is_empty("ABZ01"));
    assert!(!timestamp_field_is_empty("2022-07-02T23:57:22+00:00"));
    assert!(!timestamp_field_is_empty("--"));
}

#[test]
fn test_file_versions() {
    assert_eq!(header_version("catris high scores file v1"), Some("1".to_string()));
    assert_eq!(header_version("catris high scores file v4"), Some("4".to_string()));
    assert_eq!(header_version("hello"), None);
    assert_eq!(header_version(""), None);
    assert!(matches!(check_file_version("1"), FileVersionCheck::Upgrade));
    assert!(matches!(check_file_version("2"), FileVersionCheck::Upgrade));
    assert!(matches!(check_file_version("3"), FileVersionCheck::Upgrade));
    assert!(matches!(check_file_version("4"), FileVersionCheck::UpToDate));
    assert!(matches!(check_file_version("5"), FileVersionCheck::Unknown));
    assert!(matches!(check_file_version("44"), FileVersionCheck::Unknown));
}

#[test]
fn test_line_matches() {
    let single = split_high_score_line("ring\t2023-01-01T00:00:00Z\t12\t34.5\tAlice").unwrap();
    let multi = split_high_score_line("ring\t\t12\t34.5\tAlice\tBob").unwrap();
    assert!(line_matches(&single, Mode::Ring, false));
    assert!(!line_matches(&single, Mode::Ring, true));
    assert!(!line_matches(&single, Mode::Bottle, false));
    assert!(line_matches(&multi, Mode::Ring, true));
    assert!(!line_matches(&multi, Mode::Traditional, true));
}

#[test]
fn test_parse_timestamp_field() {
    assert_eq!(parse_timestamp_field("2023-01-01T00:00:00Z"), Some(Some((1672531200, 0))));
    assert_eq!(parse_timestamp_field("2023-01-01T01:00:00.5+01:00"), Some(Some((1672531200, 500_000_000))));
    assert_eq!(parse_timestamp_field("-"), Some(None));
    assert_eq!(parse_timestamp_field("garbage"), None);
    assert_eq!(parse_timestamp_field(""), None);
}

#[test]
fn test_parse_usize_like_std() {
    for text in ["0", "42", "+7", "007", "", "+", "-1", "1a", " 1", "18446744073709551615", "18446744073709551616", "99999999999999999999999"] {
        assert_eq!(parse_usize(text), text.parse::<usize>().ok(), "{:?}", text);
    }
    assert_eq!(parse_usize("123"), Some(123));
    assert_eq!(parse_usize("+5"), Some(5));
    assert_eq!(parse_usize("x"), None);
}
