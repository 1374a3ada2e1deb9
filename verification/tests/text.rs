use cachewipe::text::{decimal_string, last_line_of, parse_u64, split_words, trim_str};

#[test]
fn parse_matches_std() {
    for s in ["0", "42", "+7", "", "+", "-1", "12a", "18446744073709551615", "18446744073709551616", " 1", "007"] {
        assert_eq!(parse_u64(s), s.parse::<u64>().ok(), "parsing {s:?}");
    }
}

#[test]
fn decimal_matches_display() {
    for n in [0u64, 7, 10, 14, 86_400, u64::MAX] {
        assert_eq!(decimal_string(n), n.to_string());
    }
}

#[test]
fn trim_matches_std() {
    for s in ["  x y \n", "\u{3000}a\u{a0}", "", "   ", "abc"] {
        assert_eq!(trim_str(s), s.trim());
    }
}

#[test]
fn words_and_lines_match_std() {
    for s in ["a  b\tc\n", "", "  ", "x", " lead trail "] {
        let std: Vec<String> = s.split_whitespace().map(|w| w.to_string()).collect();
        assert_eq!(split_words(s), std);
    }
    for s in ["a\nb\n", "a\nb", "a\n\n", "", "x\r\n", "x\r", "\n"] {
        assert_eq!(last_line_of(s), s.lines().last().map(|l| l.to_string()), "last line of {s:?}");
    }
}
