use yachiyo::reply::split_message;
use yachiyo::reply::strip_think_tags;

#[test]
fn a_think_block_is_removed() {
    assert_eq!(strip_think_tags("こん<think>うーん</think>にちは"), "こんにちは");
    assert_eq!(strip_think_tags("<think>\n考え中\n</think>\n\nやっほー\n"), "やっほー");
    assert_eq!(strip_think_tags("a<think>1</think>b<think>2</think>c"), "abc");
    assert_eq!(strip_think_tags("a<think>x<think>y</think>b</think>c"), "ab</think>c");
}

#[test]
fn a_text_without_a_block_is_only_trimmed() {
    assert_eq!(strip_think_tags("  </think> そのまま "), "</think> そのまま");
    assert_eq!(strip_think_tags(""), "");
}

#[test]
fn an_open_block_hides_the_rest() {
    assert_eq!(strip_think_tags("前 <think>後ろは全部"), "前");
    assert_eq!(strip_think_tags("<think>だけ"), "");
}

#[test]
fn a_block_may_leave_the_opening_of_another() {
    assert_eq!(strip_think_tags("<thi<think>x</think>nk>"), "<think>");
}

#[test]
fn a_short_text_is_one_message() {
    assert_eq!(split_message("やっほー", 1900), vec!["やっほー"]);
    assert_eq!(split_message("", 1900), vec![""]);
    assert_eq!(split_message("a\nb", 10), vec!["a\nb"]);
}

#[test]
fn a_text_is_cut_at_its_lines() {
    assert_eq!(split_message("aaaa\nbbbb\ncc", 8), vec!["aaaa", "bbbb\ncc"]);
    assert_eq!(split_message("aaaa\nbbbb", 10), vec!["aaaa\nbbbb"]);
}

#[test]
fn a_long_line_is_cut_into_blocks() {
    assert_eq!(split_message("ab\nabcdefgh\nc", 3), vec!["ab", "abc", "def", "gh", "c"]);
    assert_eq!(split_message("月見ヤチヨ", 2), vec!["月見", "ヤチ", "ヨ"]);
}

#[test]
fn a_line_of_the_whole_limit_comes_after_an_empty_message() {
    assert_eq!(split_message("abc", 3), vec!["", "abc"]);
}

#[test]
fn line_feeds_alone_are_one_message() {
    assert_eq!(split_message("\n\n\n\n", 2), vec!["\n\n\n\n"]);
    assert_eq!(split_message("\n\n", 0), vec!["", "", ""]);
}

#[test]
fn messages_fit_and_keep_the_text() {
    let line = "これは長めのテスト行です。".repeat(3);
    let mut text = String::new();
    for i in 0..100 {
        text.push_str(&line);
        text.push_str(&i.to_string());
        text.push('\n');
    }
    text.push_str(&"あ".repeat(5000));
    let messages = split_message(&text, 1900);
    assert!(!messages.is_empty());
    assert!(messages.iter().all(|m| m.chars().count() <= 1900));
    let kept: String = messages.concat().replace('\n', "");
    assert_eq!(kept, text.replace('\n', ""));
}
