use yachiyo::escape::html_escape;
use yachiyo::escape::replace_char;
use yachiyo::number::decimal_text;
use yachiyo::number::parse_u32;
use yachiyo::number::signed_decimal_text;
use yachiyo::text::begins_with;
use yachiyo::text::chars_of;
use yachiyo::text::contains_text;
use yachiyo::text::find_chars;
use yachiyo::text::finishes_with;
use yachiyo::text::join_texts;
use yachiyo::text::lines_of;
use yachiyo::text::split_chars;
use yachiyo::text::strip_prefix_text;
use yachiyo::text::text_of;
use yachiyo::text::text_or;
use yachiyo::text::trim_end_of;
use yachiyo::text::trim_end_texts;
use yachiyo::text::trim_parts;
use yachiyo::text::trim_start_of;
use yachiyo::text::trim_start_texts;
use yachiyo::text::trim_text;
use yachiyo::text::white_space;

fn samples() -> Vec<&'static str> {
    vec![
        "",
        " ",
        "a",
        " a ",
        "\t\u{3000}月見\u{00a0}ヤチヨ\r\n",
        "\n",
        "\n\n",
        "a\nb",
        "a\r\nb\r\n",
        "a\r",
        "a\rb\n\r\n",
        "aaa",
        "aabaa",
        "## [x] の会話",
        "## [## [x",
        "/a//b/",
        "|x||y|",
        "…\u{85}…\u{85}",
    ]
}

#[test]
fn white_space_is_that_of_unicode() {
    for n in 0..0x11_0000u32 {
        if let Some(c) = char::from_u32(n) {
            assert_eq!(white_space(c), c.is_whitespace(), "{:x}", n);
        }
    }
}

#[test]
fn trimming_goes_as_in_std() {
    for s in samples() {
        assert_eq!(trim_text(s), s.trim());
        assert_eq!(trim_end_of(s, 'a'), s.trim_end_matches('a'));
        assert_eq!(trim_end_of(s, '/'), s.trim_end_matches('/'));
        assert_eq!(text_of(trim_start_of(&chars_of(s), 'a')), s.trim_start_matches('a'));
        assert_eq!(trim_start_texts(s, "## ["), s.trim_start_matches("## ["));
        assert_eq!(trim_start_texts(s, "aa"), s.trim_start_matches("aa"));
        assert_eq!(trim_end_texts(s, "] の会話"), s.trim_end_matches("] の会話"));
        assert_eq!(trim_end_texts(s, "aa"), s.trim_end_matches("aa"));
    }
}

#[test]
fn searching_goes_as_in_std() {
    for s in samples() {
        for p in ["a", "aa", "ab", "月", "\n", "] の会話", "## ["] {
            assert_eq!(contains_text(s, p), s.contains(p));
            assert_eq!(begins_with(s, p), s.starts_with(p));
            assert_eq!(finishes_with(s, p), s.ends_with(p));
            assert_eq!(strip_prefix_text(s, p).as_deref(), s.strip_prefix(p));
            let found = find_chars(&chars_of(s), &chars_of(p));
            assert_eq!(found, s.find(p).map(|i| s[..i].chars().count()));
        }
    }
}

#[test]
fn splitting_goes_as_in_std() {
    for s in samples() {
        let lines: Vec<String> = s.lines().map(|l| l.to_string()).collect();
        assert_eq!(lines_of(s), lines);
        for c in ['\n', '|', '/', 'a'] {
            let parts: Vec<String> = s.split(c).map(|l| l.to_string()).collect();
            assert_eq!(split_chars(&chars_of(s), c), parts);
            assert_eq!(join_texts(&parts, "--"), parts.join("--"));
            let trimmed: Vec<String> = parts
                .iter()
                .map(|p| p.trim().to_string())
                .filter(|p| !p.is_empty())
                .collect();
            assert_eq!(trim_parts(&parts), trimmed);
        }
    }
}

#[test]
fn a_missing_text_has_a_default() {
    assert_eq!(text_or(Some("x".to_string()), "y"), "x");
    assert_eq!(text_or(None, "y"), "y");
}

#[test]
fn numbers_are_written_and_read_back() {
    for n in [0u32, 1, 9, 10, 75, 999, 1000, 4294967295] {
        assert_eq!(decimal_text(n as u64), n.to_string());
        assert_eq!(parse_u32(&decimal_text(n as u64)), Some(n));
    }
    assert_eq!(decimal_text(u64::MAX), "18446744073709551615");
    for n in [0i64, 7, -7, i64::MAX, i64::MIN, -10] {
        assert_eq!(signed_decimal_text(n), n.to_string());
    }
}

#[test]
fn numbers_are_read_as_in_std() {
    for s in [
        "", "+", "-", "+7", "-7", "007", " 7", "7 ", "4294967295", "4294967296", "99999999999", "x",
        "１", "+-1", "++1",
    ] {
        assert_eq!(parse_u32(s), s.parse::<u32>().ok(), "{:?}", s);
    }
}

#[test]
fn markup_is_escaped() {
    assert_eq!(
        html_escape("<a href=\"x\">&amp; '月'</a>"),
        "&lt;a href=&quot;x&quot;&gt;&amp;amp; '月'&lt;/a&gt;"
    );
    assert_eq!(html_escape(""), "");
    for s in ["<script>alert(\"x\")</script>", "&lt;", "a > b"] {
        assert!(!html_escape(s).contains(|c| c == '<' || c == '>' || c == '"'));
    }
}

#[test]
fn escaped_texts_stay_different() {
    let texts = ["<", "&lt;", "&amp;lt;", "\"", "&quot;", "&", "&amp;", ">", "&gt;"];
    for a in texts {
        for b in texts {
            assert_eq!(html_escape(a) == html_escape(b), a == b);
        }
    }
}

#[test]
fn escaping_can_be_undone() {
    for s in ["", "&lt;", "<&gt;\">", "&amp;quot;", "&&;lt;", "a < b && c > \"d\"", "月&見"] {
        let back = html_escape(s)
            .replace("&quot;", "\"")
            .replace("&gt;", ">")
            .replace("&lt;", "<")
            .replace("&amp;", "&");
        assert_eq!(back, s);
    }
}

#[test]
fn characters_are_replaced() {
    assert_eq!(replace_char("a\nb\n\nc", '\n', "<br>"), "a<br>b<br><br>c");
    assert_eq!(replace_char("", '\n', "<br>"), "");
}
