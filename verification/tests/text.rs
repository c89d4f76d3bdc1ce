use food_ledger::text::{is_blank, is_white_space, same_text, split};

fn strings(parts: &[&str]) -> Vec<String> {
    parts.iter().map(|s| s.to_string()).collect()
}

#[test]
fn split_cuts_at_every_separator() {
    assert_eq!(split("1,Rice,100,5000", ',', None), strings(&["1", "Rice", "100", "5000"]));
    assert_eq!(split("a\nb\nc", '\n', None), strings(&["a", "b", "c"]));
}

#[test]
fn split_keeps_empty_pieces() {
    assert_eq!(split("", ',', None), strings(&[""]));
    assert_eq!(split(",", ',', None), strings(&["", ""]));
    assert_eq!(split("2,,10,100", ',', None), strings(&["2", "", "10", "100"]));
    assert_eq!(split("a\n\nb\n", '\n', None), strings(&["a", "", "b", ""]));
}

#[test]
fn split_without_separator_gives_the_text() {
    assert_eq!(split("Rice", ',', None), strings(&["Rice"]));
    assert_eq!(split("Rice", ',', Some(4)), strings(&["Rice"]));
}

#[test]
fn split_stops_at_the_limit() {
    assert_eq!(split("1,a,2,3,4,5", ',', Some(4)), strings(&["1", "a", "2", "3,4,5"]));
    assert_eq!(split("1,a,2,3", ',', Some(4)), strings(&["1", "a", "2", "3"]));
    assert_eq!(split("1,a,2", ',', Some(4)), strings(&["1", "a", "2"]));
    assert_eq!(split("1,a,2,3", ',', Some(2)), strings(&["1", "a,2,3"]));
    assert_eq!(split("1,a,2,3", ',', Some(1)), strings(&["1,a,2,3"]));
    assert_eq!(split("1,a,2,3", ',', Some(0)), strings(&["1,a,2,3"]));
}

#[test]
fn split_agrees_with_the_standard_library() {
    let samples = vec!["", ",", ",,", "a", "a,b", ",a,", "nasi goreng,1,2", "é,ü,,ß"];
    for s in samples {
        let all: Vec<String> = s.split(',').map(|p| p.to_string()).collect();
        assert_eq!(split(s, ',', None), all);
        let four: Vec<String> = s.splitn(4, ',').map(|p| p.to_string()).collect();
        assert_eq!(split(s, ',', Some(4)), four);
    }
}

#[test]
fn is_blank_tells_white_space_from_text() {
    assert!(is_blank(""));
    assert!(is_blank(" "));
    assert!(is_blank(" \t "));
    assert!(is_blank("\u{a0}\u{3000}"));
    assert!(!is_blank("a"));
    assert!(!is_blank("  a  "));
    assert!(!is_blank("_"));
}

#[test]
fn is_blank_agrees_with_trimming() {
    let samples = vec!["", " ", "\t\r", " x", "x ", "\u{2003}", "\u{200b}", "0"];
    for s in samples {
        assert_eq!(is_blank(s), s.trim().is_empty(), "on {:?}", s);
    }
}

#[test]
fn same_text_compares_character_by_character() {
    assert!(same_text("", ""));
    assert!(same_text("Rice", "Rice"));
    assert!(!same_text("Rice", "rice"));
    assert!(!same_text("Rice", "Ric"));
    assert!(!same_text("Ric", "Rice"));
    assert!(!same_text("", "a"));
    assert!(same_text("nasi goreng é", "nasi goreng é"));
}

#[test]
fn is_white_space_knows_the_usual_characters() {
    assert!(is_white_space(' '));
    assert!(is_white_space('\t'));
    assert!(is_white_space('\n'));
    assert!(is_white_space('\r'));
    assert!(is_white_space('\u{a0}'));
    assert!(is_white_space('\u{3000}'));
    assert!(!is_white_space('a'));
    assert!(!is_white_space('0'));
    assert!(!is_white_space(','));
    assert!(!is_white_space('\u{8}'));
    assert!(!is_white_space('\u{e}'));
    assert!(!is_white_space('\u{200b}'));
    assert!(!is_white_space('\u{180e}'));
}

#[test]
fn is_white_space_agrees_with_the_standard_library_on_every_character() {
    let mut count = 0;
    for code in 0..=0x10ffffu32 {
        if let Some(c) = char::from_u32(code) {
            assert_eq!(is_white_space(c), c.is_whitespace(), "on U+{:04X}", code);
            if is_white_space(c) {
                count += 1;
            }
        }
    }
    assert_eq!(count, 25);
}
