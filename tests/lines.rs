use rustic_typster::fetch::File;
use rustic_typster::game::{key_is_correct, line_finished, TypingStats};
use rustic_typster::text::{passes, qualifying_lines};
use rustic_typster::SrcString;

#[test]
fn qualifying_lines_trims_and_filters() {
    let content = "fn main() {\n    let answer = compute(41) + 1;\n}\n// a comment that is long enough\n    \tlet x = vec![1, 2, 3];   \nshort\n";
    let lines: Vec<String> = qualifying_lines(content).into_iter().collect();
    assert_eq!(lines, vec!["fn main() {".to_string(), "let answer = compute(41) + 1;".to_string(), "let x = vec![1, 2, 3];".to_string()]);
}

#[test]
fn qualifying_lines_keeps_length_bounds() {
    let ten = "abcdefghij";
    let nine = "abcdefghi";
    let eighty = "a".repeat(80);
    let eighty_one = "b".repeat(81);
    let content = format!("{}\n{}\n{}\n{}", ten, nine, eighty, eighty_one);
    let lines: Vec<String> = qualifying_lines(&content).into_iter().collect();
    assert_eq!(lines, vec![ten.to_string(), eighty]);
}

#[test]
fn qualifying_lines_counts_bytes_not_chars() {
    // seven characters, fourteen bytes
    let greek = "αβγδεζη";
    let lines: Vec<String> = qualifying_lines(greek).into_iter().collect();
    assert_eq!(lines, vec![greek.to_string()]);
}

#[test]
fn qualifying_lines_of_empty_content() {
    assert!(qualifying_lines("").is_empty());
    assert!(qualifying_lines("\n\n\n").is_empty());
}

#[test]
fn qualifying_lines_handles_crlf_and_no_final_newline() {
    let lines: Vec<String> = qualifying_lines("let a = 1234567;\r\nlet b = 7654321;").into_iter().collect();
    assert_eq!(lines, vec!["let a = 1234567;".to_string(), "let b = 7654321;".to_string()]);
}

#[test]
fn passes_rejects_comments_only_at_start() {
    assert!(!passes("// this is a comment"));
    assert!(passes("let url = \"http://x\";"));
    assert!(passes("/* block comment */"));
}

#[test]
fn every_kept_line_qualifies() {
    let content = "  \t fn long_enough_line() {}  \n//not this one at all\nx\n        return Ok(value);\n";
    for line in qualifying_lines(content) {
        assert!(line.len() >= 10 && line.len() <= 80);
        assert_eq!(line.trim(), line.as_str());
        assert!(!line.starts_with("//"));
    }
}

#[test]
fn file_gives_lines_in_order() {
    let mut file = File::new("first line here\nsecond line here\n");
    assert_eq!(file.get_line(), Some("first line here".to_string()));
    assert_eq!(file.get_line(), Some("second line here".to_string()));
    assert_eq!(file.get_line(), None);
    assert_eq!(file.get_line(), None);
}

#[test]
fn typing_stats_add_up() {
    let mut stats = TypingStats::new();
    assert_eq!((stats.total_mistakes, stats.total_chars, stats.total_time_ms), (0, 0, 0));
    stats.add_line("let x = 1;", 1500);
    stats.add_line("αβ", 20);
    stats.add_mistake();
    stats.add_mistake();
    assert_eq!(stats.total_chars, 14);
    assert_eq!(stats.total_time_ms, 1520);
    assert_eq!(stats.total_mistakes, 2);
    let d = TypingStats::default();
    assert_eq!((d.total_mistakes, d.total_chars, d.total_time_ms), (0, 0, 0));
}

#[test]
fn src_string_default_is_placeholder() {
    let s = SrcString::default();
    assert_eq!(s.string, "Waiting on line ...");
    assert_eq!(s.source, "");
}

#[test]
fn keys_are_checked_against_the_line() {
    let expected: Vec<char> = "let".chars().collect();
    assert!(key_is_correct(&expected, &vec!['l']));
    assert!(!key_is_correct(&expected, &vec!['k']));
    assert!(key_is_correct(&expected, &vec!['x', 'e']));
    assert!(!key_is_correct(&expected, &vec!['l', 'e', 't', ' ']));
    assert!(!key_is_correct(&expected, &vec![]));
    assert!(line_finished(&expected, &vec!['l', 'e', 't']));
    assert!(!line_finished(&expected, &vec!['l', 'e']));
    assert!(!line_finished(&expected, &vec!['l', 'e', 'x']));
}
