use neko::bytes::{copy_range, parse_decimal, split_field_exec, three_fields_exec};
use neko::cursor::{parse_cursor_report, parse_cursor_report_u8};
use neko::startup::{exit_message, exit_position, has_arguments};

fn chars(s: &str) -> Vec<char> {
    s.chars().collect()
}

#[test]
fn decimal_numbers_as_from_str_reads_them() {
    assert_eq!(parse_decimal(b"0", 65535), Some(0));
    assert_eq!(parse_decimal(b"65535", 65535), Some(65535));
    assert_eq!(parse_decimal(b"+12", 65535), Some(12));
    assert_eq!(parse_decimal(b"007", 255), Some(7));
    assert_eq!(parse_decimal(b"65536", 65535), None);
    assert_eq!(parse_decimal(b"256", 255), None);
    assert_eq!(parse_decimal(b"", 65535), None);
    assert_eq!(parse_decimal(b"+", 65535), None);
    assert_eq!(parse_decimal(b"-1", 65535), None);
    assert_eq!(parse_decimal(b"1a", 65535), None);
    assert_eq!(parse_decimal(b"99999999999", 65535), None);
    for n in [0u32, 1, 9, 10, 99, 255, 1000, 65535] {
        assert_eq!(parse_decimal(n.to_string().as_bytes(), 65535), n.to_string().parse::<u16>().ok().map(u32::from));
    }
}

#[test]
fn fields_are_split_at_semicolons() {
    let (head, tail) = split_field_exec(b"ab;cd;e");
    assert_eq!(head, b"ab".to_vec());
    assert_eq!(tail, Some(b"cd;e".to_vec()));
    let (head, tail) = split_field_exec(b"abc");
    assert_eq!(head, b"abc".to_vec());
    assert_eq!(tail, None);
    assert_eq!(three_fields_exec(b"1;2;3;4"), Some((b"1".to_vec(), b"2".to_vec(), b"3".to_vec())));
    assert_eq!(three_fields_exec(b";;"), Some((vec![], vec![], vec![])));
    assert_eq!(three_fields_exec(b"1;2"), None);
    assert_eq!(copy_range(b"hello", 1, 4), b"ell".to_vec());
}

#[test]
fn cursor_reports() {
    assert_eq!(parse_cursor_report(&chars("\x1b[12;34R")), Some((34, 12)));
    assert_eq!(parse_cursor_report(&chars("\x1b[1;1")), Some((1, 1)));
    assert_eq!(parse_cursor_report(&chars("junk")), Some((0, 0)));
    assert_eq!(parse_cursor_report(&chars("\x1b[65535;2R")), Some((2, 65535)));
    assert_eq!(parse_cursor_report(&chars("\x1b[65536;2R")), None);
    assert_eq!(parse_cursor_report(&chars("\x1b[1 ;2R")), None);
    assert_eq!(parse_cursor_report(&chars("\x1b[12;34Rgarbage")), Some((34, 12)));
    assert_eq!(parse_cursor_report_u8(&chars("\x1b[24;80R")), Some((80, 24)));
    assert_eq!(parse_cursor_report_u8(&chars("\x1b[300;80R")), None);
    assert_eq!(parse_cursor_report_u8(&chars("\x1b[255;255R")), Some((255, 255)));
}

#[test]
fn cursor_reports_take_character_codes_as_digits() {
    // 'A' is 65: as a digit it counts 17.
    assert_eq!(parse_cursor_report(&chars("\x1b[A;1R")), Some((1, 17)));
}

#[test]
fn exit_messages() {
    assert_eq!(exit_message(0), "Brauch Argumente!");
    assert_eq!(exit_message(1), "Connard");
    assert_eq!(exit_message(5), "");
    assert!(!has_arguments(1));
    assert!(has_arguments(2));
}

#[test]
fn exit_word_ends_the_command() {
    let words = |ws: &[&str]| ws.iter().map(|w| w.to_string()).collect::<Vec<String>>();
    assert_eq!(exit_position(&words(&["ls", "exit", "x", "exit"])), Some(1));
    assert_eq!(exit_position(&words(&["exit"])), Some(0));
    assert_eq!(exit_position(&words(&["ls", "-l", "exits"])), None);
    assert_eq!(exit_position(&words(&[])), None);
}
