use across::files::{
    holds_no_game, is_whitespace, parse_save_file, save_line, saved_text, Date, SaveData,
};

fn new_year() -> Date {
    // 2024-01-02T03:04:05Z
    Date { seconds: 1_704_164_645, nanoseconds: 0 }
}

#[test]
fn save_file_is_read_line_by_line() {
    let games = parse_save_file(
        "date,score\n2024-01-02T03:04:05+00:00,12\n2024-01-02T03:04:06+00:00,0",
    );
    assert_eq!(
        games,
        vec![
            SaveData::new(new_year(), 12),
            SaveData::new(Date { seconds: 1_704_164_646, nanoseconds: 0 }, 0),
        ]
    );
}

#[test]
fn dates_are_read_as_instants() {
    let games = parse_save_file(
        "2024-01-02T03:04:05Z,1\n2024-01-02T04:04:05+01:00,2\n2024-01-02T03:04:05.5Z,3\n1969-12-31T23:59:59Z,4",
    );
    assert_eq!(
        games,
        vec![
            SaveData::new(new_year(), 1),
            SaveData::new(new_year(), 2),
            SaveData::new(Date { seconds: 1_704_164_645, nanoseconds: 500_000_000 }, 3),
            SaveData::new(Date { seconds: -1, nanoseconds: 0 }, 4),
        ]
    );
}

#[test]
fn lines_that_tell_of_no_game_are_passed_over() {
    let games = parse_save_file(
        "date,score\n\ngarbage\n2024-01-02T03:04:05Z,1,2\n2024-01-02T03:04:05Z\n,5\nyesterday,5\n2024-01-02T03:04:05Z,\n2024-01-02T03:04:05Z,-1\n2024-01-02T03:04:05Z,1.5\n2024-01-02T03:04:05Z,seven\n2024-01-02T03:04:05Z, 5\n2024-01-02T03:04:05Z ,5\n2024-01-02T03:04:05Z,+\n2024-13-02T03:04:05Z,5\n2024-01-02T03:04:05Z,7\n",
    );
    assert_eq!(games, vec![SaveData::new(new_year(), 7)]);
    assert_eq!(parse_save_file(""), vec![]);
    assert_eq!(parse_save_file("\n\n\n"), vec![]);
}

#[test]
fn white_space_round_a_line_does_not_count() {
    let games = parse_save_file(
        "  2024-01-02T03:04:05Z,1\r\n\t2024-01-02T03:04:05Z,2 \u{a0}\n\u{3000}2024-01-02T03:04:05Z,3\u{2003}",
    );
    assert_eq!(
        games,
        vec![
            SaveData::new(new_year(), 1),
            SaveData::new(new_year(), 2),
            SaveData::new(new_year(), 3),
        ]
    );
}

#[test]
fn scores_are_decimal_counts() {
    let games = parse_save_file(
        "2024-01-02T03:04:05Z,+7\n2024-01-02T03:04:05Z,007\n2024-01-02T03:04:05Z,18446744073709551615\n2024-01-02T03:04:05Z,18446744073709551616\n2024-01-02T03:04:05Z,99999999999999999999999\n2024-01-02T03:04:05Z,++7\n2024-01-02T03:04:05Z,7+\n2024-01-02T03:04:05Z,\u{661}",
    );
    assert_eq!(
        games,
        vec![
            SaveData::new(new_year(), 7),
            SaveData::new(new_year(), 7),
            SaveData::new(new_year(), usize::MAX),
        ]
    );
}

#[test]
fn scores_are_read_as_the_standard_library_reads_them() {
    for text in ["0", "1", "+0", "+", "", "-0", "10", "0010", "4294967295", "4294967296", "1_0", "0x10", " 1"] {
        let line = format!("2024-01-02T03:04:05Z,{}", text);
        let expected: Vec<SaveData> = match text.parse::<usize>() {
            Ok(score) => vec![SaveData::new(new_year(), score)],
            Err(_) => vec![],
        };
        assert_eq!(parse_save_file(&line), expected);
    }
}

#[test]
fn game_is_written_as_a_line() {
    assert_eq!(
        save_line(SaveData::new(new_year(), 12)),
        Some("2024-01-02T03:04:05+00:00,12".to_string())
    );
    assert_eq!(
        save_line(SaveData::new(Date { seconds: 0, nanoseconds: 0 }, 0)),
        Some("1970-01-01T00:00:00+00:00,0".to_string())
    );
    assert_eq!(
        save_line(SaveData::new(Date { seconds: 1, nanoseconds: 250_000_000 }, usize::MAX)),
        Some(format!("1970-01-01T00:00:01.250+00:00,{}", usize::MAX))
    );
    for score in [9, 10, 99, 100, 101, 1000, 12_345_678] {
        assert_eq!(
            save_line(SaveData::new(new_year(), score)),
            Some(format!("2024-01-02T03:04:05+00:00,{}", score))
        );
    }
}

#[test]
fn date_out_of_range_is_not_written() {
    assert_eq!(save_line(SaveData::new(Date { seconds: i64::MAX, nanoseconds: 0 }, 1)), None);
    assert_eq!(save_line(SaveData::new(Date { seconds: 0, nanoseconds: u32::MAX }, 1)), None);
    assert_eq!(saved_text(None, SaveData::new(Date { seconds: i64::MIN, nanoseconds: 0 }, 1)), None);
}

#[test]
fn first_game_is_saved_under_a_heading() {
    let data = SaveData::new(new_year(), 3);
    let whole = (false, "date,score\n2024-01-02T03:04:05+00:00,3".to_string());
    assert_eq!(saved_text(None, data), Some(whole.clone()));
    assert_eq!(saved_text(Some(""), data), Some(whole.clone()));
    assert_eq!(saved_text(Some(" \n\t\r\n  "), data), Some(whole));
}

#[test]
fn later_games_are_saved_at_the_end() {
    let data = SaveData::new(new_year(), 3);
    let line = (true, "\n2024-01-02T03:04:05+00:00,3".to_string());
    assert_eq!(saved_text(Some("date,score"), data), Some(line.clone()));
    assert_eq!(saved_text(Some("\n\nx\n"), data), Some(line));
}

#[test]
fn what_is_saved_is_read_again() {
    let first = SaveData::new(new_year(), 3);
    let second = SaveData::new(Date { seconds: 1_704_164_700, nanoseconds: 123_000_000 }, 40);
    let (append, mut file) = saved_text(None, first).unwrap();
    assert!(!append);
    let (append, more) = saved_text(Some(&file), second).unwrap();
    assert!(append);
    file.push_str(&more);
    assert_eq!(parse_save_file(&file), vec![first, second]);
}

#[test]
fn blank_files_hold_no_game() {
    assert!(holds_no_game(""));
    assert!(holds_no_game(" \n\r\t\u{b}\u{c}\u{85}\u{a0}\u{1680}\u{2000}\u{200a}\u{2028}\u{2029}\u{202f}\u{205f}\u{3000}"));
    assert!(!holds_no_game(" \n. "));
    assert!(!holds_no_game("\u{200b}"));
}

#[test]
fn white_space_is_what_the_standard_library_calls_white_space() {
    for code in 0..=0x10_ffff_u32 {
        if let Some(c) = char::from_u32(code) {
            assert_eq!(is_whitespace(c), c.is_whitespace());
        }
    }
}
