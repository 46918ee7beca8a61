use mirror_rust_lib::text::{
    chars_of, contains_chars, find_last, is_blank, is_whitespace, lines_of, same_text, string_of,
    trim_text, words_of,
};

const SAMPLES: &[&str] = &[
    "",
    "\n",
    "\r",
    "\r\n",
    "a",
    "a\n",
    "a\r\nb\r\n",
    "a\rb\n\nc",
    "  lead and trail \t ",
    "\u{a0}nbsp\u{3000}ideo\u{2009}thin\u{85}next",
    "x\u{200b}y",
    "List of devices attached\nR58\tdevice model:SM_G973F\n\n",
    "\n\n\nend\r",
    "tabs\t\tand  spaces",
];

fn strings(v: Vec<Vec<char>>) -> Vec<String> {
    v.into_iter().map(|w| w.into_iter().collect()).collect()
}

#[test]
fn lines_agree_with_std() {
    for s in SAMPLES {
        let ours = strings(lines_of(&chars_of(s)));
        let std: Vec<String> = s.lines().map(|l| l.to_string()).collect();
        assert_eq!(ours, std, "lines of {:?}", s);
    }
}

#[test]
fn words_agree_with_std() {
    for s in SAMPLES {
        let ours = strings(words_of(&chars_of(s)));
        let std: Vec<String> = s.split_whitespace().map(|w| w.to_string()).collect();
        assert_eq!(ours, std, "words of {:?}", s);
    }
}

#[test]
fn trim_agrees_with_std() {
    for s in SAMPLES {
        assert_eq!(trim_text(s), s.trim(), "trim of {:?}", s);
        assert_eq!(is_blank(s), s.trim().is_empty());
    }
}

#[test]
fn whitespace_agrees_with_std() {
    for c in (0u32..0x11_0000).filter_map(char::from_u32) {
        assert_eq!(is_whitespace(c), c.is_whitespace(), "{:?}", c);
    }
}

#[test]
fn search_agrees_with_std() {
    for s in SAMPLES {
        for p in ["", "a", "attached", "\n", "model:", "zz"] {
            assert_eq!(contains_chars(&chars_of(s), &chars_of(p)), s.contains(p));
        }
        let last = find_last(&chars_of(s), ':');
        let std = s.chars().collect::<Vec<_>>().iter().rposition(|c| *c == ':');
        assert_eq!(last, std);
        assert!(same_text(s, &string_of(&chars_of(s))));
    }
    assert!(!same_text("abc", "abd"));
}
