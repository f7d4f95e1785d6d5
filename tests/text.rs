use hop_kak::hop::{ReplaceRange, Response};
use hop_kak::selection::{Pos, Sel};
use hop_kak::display::push_marks;
use hop_kak::text::{is_whitespace, parse_usize, split_whitespace};

#[test]
fn parse_positions() {
    assert_eq!(Pos::parse("12.7"), Ok(Pos { line: 12, col: 7 }));
    assert_eq!(Pos::parse("+1.+2"), Ok(Pos { line: 1, col: 2 }));
    assert_eq!(Pos::parse("1.2.3"), Ok(Pos { line: 1, col: 2 }));
    assert_eq!(Pos::parse("1"), Err(()));
    assert_eq!(Pos::parse("a.1"), Err(()));
    assert_eq!(Pos::parse("1."), Err(()));
    assert_eq!(Pos::parse("-1.2"), Err(()));
    assert_eq!("3.4".parse::<Pos>(), Ok(Pos { line: 3, col: 4 }));
}

#[test]
fn parse_selections() {
    let s = Sel { start: Pos { line: 1, col: 2 }, end: Pos { line: 3, col: 4 } };
    assert_eq!(Sel::parse("1.2,3.4"), Ok(s));
    assert_eq!(Sel::parse("1.2,3.4,9.9"), Ok(s));
    assert_eq!("1.2,3.4".parse::<Sel>(), Ok(s));
    assert_eq!(Sel::parse("1.2"), Err(()));
    assert_eq!(Sel::parse("1.2,x"), Err(()));
}

#[test]
fn selection_text() {
    let s = Sel { start: Pos { line: 10, col: 0 }, end: Pos { line: 305, col: 9 } };
    assert_eq!(s.to_str(), "10.0,305.9");
    assert_eq!(Sel::parse(&s.to_str()), Ok(s));
}

#[test]
fn numbers_as_std_reads_them() {
    assert_eq!(parse_usize("0"), Some(0));
    assert_eq!(parse_usize("007"), Some(7));
    assert_eq!(parse_usize("+"), None);
    assert_eq!(parse_usize(""), None);
    assert_eq!(parse_usize("1 "), None);
    let max = usize::MAX.to_string();
    assert_eq!(parse_usize(&max), Some(usize::MAX));
    let over = format!("{}0", max);
    assert_eq!(parse_usize(&over), None);
    for s in ["42", "+42", "-42", "4a", "18446744073709551616", "99999999999999999999"] {
        assert_eq!(parse_usize(s), s.parse::<usize>().ok(), "{s}");
    }
}

#[test]
fn words_split_at_white_space() {
    let s = "  a\tbc\u{3000}d\u{a0} \n";
    assert_eq!(split_whitespace(s), s.split_whitespace().collect::<Vec<_>>());
    assert!(split_whitespace("").is_empty());
    assert!(split_whitespace(" \t ").is_empty());
    for c in ['\t', '\n', ' ', '\u{85}', '\u{2003}', '\u{3000}', 'a', '_', '\u{200b}'] {
        assert_eq!(is_whitespace(c), c.is_whitespace(), "{c:?}");
    }
}

fn range(line: usize, start: usize, end: usize, label: &str) -> ReplaceRange {
    ReplaceRange::new(
        Sel { start: Pos { line, col: start }, end: Pos { line, col: end } },
        label.to_string(),
    )
}

#[test]
fn highlighter_command() {
    let cmd = Response::replace_ranges_command(&[range(3, 5, 9, "ab"), range(4, 2, 2, "cd"), range(5, 1, 4, "e")]);
    assert_eq!(
        cmd,
        "set-option window hop_ranges %val{timestamp} \
         3.8+1|{hop_label_head}a 3.9+1|{hop_label_tail}b \
         4.2+1|{hop_label_head}c \
         5.4+1|{hop_label_head}e "
    );
    assert_eq!(Response::replace_ranges_command(&[]), "set-option window hop_ranges %val{timestamp} ");
}

#[test]
fn highlighter_counts_clusters() {
    // "e\u{301}" is a single cluster of two characters
    let cmd = Response::replace_ranges_command(&[range(1, 1, 10, "e\u{301}xy")]);
    assert_eq!(
        cmd,
        "set-option window hop_ranges %val{timestamp} \
         1.8+1|{hop_label_head}e\u{301} 1.9+2|{hop_label_tail}xy "
    );
}

#[test]
fn marks_from_given_clusters() {
    let sel = Sel { start: Pos { line: 2, col: 3 }, end: Pos { line: 2, col: 4 } };
    let mut out = String::from(">");
    push_marks(&mut out, sel, &vec!["x".to_string(), "yz".to_string(), "w".to_string()]);
    assert_eq!(out, ">2.3+1|{hop_label_head}x 2.4+1|{hop_label_tail}yz ");
    let mut out = String::new();
    push_marks(&mut out, sel, &vec![]);
    assert_eq!(out, "");
}

#[test]
fn new_selections_command() {
    let cmd = Response::new_sels_command(&[range(1, 2, 3, "a"), range(4, 5, 6, "b")]);
    assert_eq!(cmd, "set-register ^ \"%val{buffile}@%val{timestamp}@0\" 1.2,1.3 4.5,4.6 ");
    assert_eq!(
        Response::new_sels_command(&[]),
        "set-register ^ \"%val{buffile}@%val{timestamp}@0\" "
    );
}

#[test]
fn reduce_callback_text() {
    let cmd = Response::reduce_callback_command(&[range(1, 2, 3, "ab"), range(4, 5, 6, "c")], "/bin/hop");
    assert_eq!(
        cmd,
        "on-key 'evaluate-commands -save-regs ^ -no-hooks -- %sh{ /bin/hop --sels \"1.2,1.3 4.5,4.6\" --labels \"ab c\" --key $kak_key }'"
    );
}
