use yachiyo::clock::chat_time;
use yachiyo::clock::file_time;
use yachiyo::clock::log_time;
use yachiyo::clock::web_file_time;
use yachiyo::clock::LocalTime;
use yachiyo::memory_log::append_chat_log;
use yachiyo::memory_log::parse_user_message;
use yachiyo::memory_log::read_last_entries;
use yachiyo::memory_log::user_log_message;
use yachiyo::page::messages_page;

fn at(second: u32) -> LocalTime {
    LocalTime::new(2025, 3, 4, 5, 6, second, 78).unwrap()
}

fn chat_log_entry(at: &LocalTime, user: &str, bot: &str) -> String {
    let mut log = String::new();
    append_chat_log(&mut log, at, user, bot);
    log
}

#[test]
fn times_are_written() {
    assert_eq!(log_time(&at(7)), "2025-03-04 05:06:07");
    assert_eq!(file_time(&at(7)), "20250304_050607");
    assert_eq!(web_file_time(&at(7)), "20250304_050607_078");
    assert_eq!(chat_time(&at(7)), "2025年03月04日 05:06");
}

#[test]
fn times_outside_the_calendar_are_refused() {
    assert!(LocalTime::new(2025, 2, 29, 0, 0, 0, 0).is_none());
    assert!(LocalTime::new(2024, 2, 29, 0, 0, 0, 0).is_some());
    assert!(LocalTime::new(2025, 13, 1, 0, 0, 0, 0).is_none());
    assert!(LocalTime::new(2025, 4, 31, 0, 0, 0, 0).is_none());
    assert!(LocalTime::new(2025, 1, 1, 24, 0, 0, 0).is_none());
    assert!(LocalTime::new(2025, 1, 1, 0, 60, 0, 0).is_none());
    assert!(LocalTime::new(2025, 1, 1, 0, 0, 60, 0).is_none());
    assert!(LocalTime::new(2025, 1, 1, 0, 0, 0, 1000).is_none());
    assert!(LocalTime::new(300000, 1, 1, 0, 0, 0, 0).is_none());
}

#[test]
fn times_of_far_years_and_leap_seconds_are_written() {
    let far = LocalTime::new(12345, 1, 2, 3, 4, 5, 6).unwrap();
    assert_eq!(log_time(&far), "+12345-01-02 03:04:05");
    let before = LocalTime::new(-5, 1, 2, 3, 4, 5, 6).unwrap();
    assert_eq!(log_time(&before), "-0005-01-02 03:04:05");
    let leap = LocalTime::new(2016, 12, 31, 23, 59, 59, 1500).unwrap();
    assert_eq!(web_file_time(&leap), "20161231_235960_500");
}

#[test]
fn different_times_make_different_file_names() {
    let times = [at(7), at(8), LocalTime::new(2025, 3, 4, 5, 6, 7, 79).unwrap()];
    for (i, a) in times.iter().enumerate() {
        for (j, b) in times.iter().enumerate() {
            assert_eq!(web_file_time(a) == web_file_time(b), i == j);
        }
    }
}

#[test]
fn an_entry_is_written() {
    assert_eq!(
        chat_log_entry(&at(7), "やっほー", "<think>x</think>こんにちは"),
        "\n## [2025-03-04 05:06:07] の会話\n- shunrin824: やっほー\n- 月見ヤチヨ: <think>x</think>こんにちは\n"
    );
}

#[test]
fn a_message_with_images_is_taken_apart() {
    assert_eq!(
        parse_user_message("[画像: file1.webp|file2.webp] テキスト"),
        (vec!["file1.webp".to_string(), "file2.webp".to_string()], "テキスト".to_string())
    );
    assert_eq!(
        parse_user_message("テキストのみ"),
        (vec![], "テキストのみ".to_string())
    );
    assert_eq!(
        parse_user_message("[画像: a.webp]"),
        (vec!["a.webp".to_string()], "".to_string())
    );
    assert_eq!(
        parse_user_message("[画像:  a | |b ]   x "),
        (vec!["a".to_string(), "b".to_string()], "x ".to_string())
    );
    assert_eq!(parse_user_message("[画像: a"), (vec![], "[画像: a".to_string()));
}

#[test]
fn a_tagged_message_is_read_back() {
    let names = vec!["web_1.webp".to_string(), "web_2.webp".to_string()];
    let logged = user_log_message(&names, "見て！");
    assert_eq!(logged, "[画像: web_1.webp|web_2.webp] 見て！");
    assert_eq!(parse_user_message(&logged), (names, "見て！".to_string()));
    let plain = user_log_message(&vec![], "ただの文");
    assert_eq!(plain, "ただの文");
    assert_eq!(parse_user_message(&plain), (vec![], "ただの文".to_string()));
}

#[test]
fn a_log_is_read_back() {
    let mut log = String::from("# 前書き\n");
    log.push_str(&chat_log_entry(&at(1), "一つ目", "答え\n二行目"));
    log.push_str(&chat_log_entry(&at(2), "[画像: a.webp] 二つ目", "答え2"));
    log.push_str(&chat_log_entry(&at(3), "三つ目", "答え3"));
    let entries = read_last_entries(&log, 5);
    assert_eq!(entries.len(), 3);
    assert_eq!(entries[0].timestamp, "2025-03-04 05:06:01");
    assert_eq!(entries[0].user_text, "一つ目");
    assert_eq!(entries[0].bot_reply, "答え\n二行目\n");
    assert_eq!(entries[1].image_filenames, vec!["a.webp"]);
    assert_eq!(entries[1].user_text, "二つ目");
    assert_eq!(entries[1].bot_reply, "答え2\n");
    assert_eq!(entries[2].timestamp, "2025-03-04 05:06:03");
    assert_eq!(entries[2].bot_reply, "答え3");
    let last = read_last_entries(&log, 2);
    assert_eq!(last.len(), 2);
    assert_eq!(last[0].user_text, "二つ目");
    assert_eq!(last[1].user_text, "三つ目");
    assert!(read_last_entries(&log, 0).is_empty());
    assert!(read_last_entries("", 5).is_empty());
}

#[test]
fn what_is_no_whole_entry_is_left_out() {
    let log = "- shunrin824: 見出しなし\n- 月見ヤチヨ: x\n## [t1] の会話\n- shunrin824: 答えなし\n## [t2] の会話\n- 月見ヤチヨ: 問いなし\n## [t3] の会話\n- shunrin824: a\nb\n- 月見ヤチヨ: c\r\nd\r\n";
    let entries = read_last_entries(log, 5);
    assert_eq!(entries.len(), 1);
    assert_eq!(entries[0].timestamp, "t3");
    assert_eq!(entries[0].user_text, "a");
    assert_eq!(entries[0].bot_reply, "c\nd");
}

#[test]
fn the_page_shows_the_newest_exchange_first() {
    let mut log = String::new();
    for i in 1..8 {
        log.push_str(&chat_log_entry(
            &at(i),
            &format!("[画像: p{}.webp] <b>{}</b>", i, i),
            &format!("<think>内緒</think>a\n&{}", i),
        ));
    }
    let page = messages_page(&log);
    assert!(page.starts_with("<!DOCTYPE HTML PUBLIC \"-//W3C//DTD HTML 4.01 Transitional//EN\"\n"));
    assert!(page.ends_with("\n<p class=\"footer\">（10秒ごとに自動更新）</p>\n</body>\n</html>"));
    assert!(page.contains("body {\n  font-family: MS PGothic"));
    let first = "<dl class=\"post\">\n  <dt><span class=\"num\">1</span> 名無しさん <span class=\"ts\">2025-03-04 05:06:07</span></dt>\n  <dd class=\"img-row\"><a href=\"/images/web/p7.webp\" target=\"_blank\"><img src=\"/images/web/p7.webp\" class=\"thumb\" alt=\"添付画像\"></a></dd><dd class=\"user-msg\">&lt;b&gt;7&lt;/b&gt;</dd>\n  <dt class=\"bot-header\">↓ 月見ヤチヨ</dt>\n  <dd class=\"bot-msg\">a<br>&amp;7</dd>\n</dl>\n";
    assert!(page.contains(&format!("（直近5件）</h2>\n{}", first)));
    assert_eq!(page.matches("<dl class=\"post\">").count(), 5);
    assert!(page.contains("<span class=\"num\">5</span> 名無しさん <span class=\"ts\">2025-03-04 05:06:03</span>"));
    assert!(!page.contains("05:06:02"));
    assert!(!page.contains("内緒"));
}

#[test]
fn the_page_of_an_empty_log_says_so() {
    let page = messages_page("");
    assert!(page.contains(
        "<p class=\"empty\">まだ会話ログがないよ〜。下のフォームから話しかけてみてね！</p>"
    ));
    assert_eq!(page.matches("<dl class=\"post\">").count(), 0);
}
