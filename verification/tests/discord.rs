use yachiyo::chat::Outcome;
use yachiyo::clock::LocalTime;
use yachiyo::dify_stream::DifyStreamResult;
use yachiyo::discord::restart_command;
use yachiyo::discord::restart_reply;
use yachiyo::discord::Attachment;
use yachiyo::discord::Handler;
use yachiyo::discord::Incoming;
use yachiyo::discord::Opening;
use yachiyo::discord::Restarted;
use yachiyo::discord::Turn;
use yachiyo::memory_log::append_chat_log;
use yachiyo::memory_log::read_last_entries;

fn handler(vision_enabled: bool) -> Handler {
    Handler {
        vision_enabled,
        memory_log_path: "log".to_string(),
        image_save_dir: "images".to_string(),
        admin_user_ids: vec!["1".to_string(), "42".to_string()],
    }
}

fn message(author_id: u64, content: &str) -> Incoming {
    Incoming {
        author_is_bot: false,
        author_id,
        channel_id: 9,
        content: content.to_string(),
        attachments: Vec::new(),
    }
}

fn attachment(filename: &str, content_type: Option<&str>) -> Attachment {
    Attachment {
        url: format!("http://cdn/{}", filename),
        filename: filename.to_string(),
        content_type: content_type.map(|s| s.to_string()),
    }
}

fn ask(handler: &Handler, msg: &Incoming) -> Turn {
    match handler.message(msg) {
        Opening::Ask(turn) => turn,
        _ => panic!("the model is not asked"),
    }
}

fn answered(answer: &str, id: &str) -> Outcome {
    Outcome::Answered(DifyStreamResult {
        answer: answer.to_string(),
        conversation_id: id.to_string(),
    })
}

#[test]
fn bots_are_ignored() {
    let mut msg = message(42, "!ollama-restart");
    msg.author_is_bot = true;
    assert!(matches!(handler(true).message(&msg), Opening::Ignore));
}

#[test]
fn administrators_restart_the_server() {
    assert!(matches!(
        handler(true).message(&message(42, " !ollama-restart\n")),
        Opening::Restart(s) if s == "Ollamaを再起動するよ〜、少し待ってね！"
    ));
    assert!(matches!(
        handler(true).message(&message(4, "!ollama-restart")),
        Opening::Refuse(s) if s == "ごめんね、このコマンドは管理者しか使えないよ〜。"
    ));
    let mut nobody = handler(true);
    nobody.admin_user_ids.clear();
    assert!(matches!(nobody.message(&message(42, "!ollama-restart")), Opening::Refuse(_)));
    assert!(matches!(
        handler(true).message(&message(42, "!ollama-restart now")),
        Opening::Ask(_)
    ));
}

#[test]
fn a_restart_is_reported() {
    assert_eq!(restart_command().program, "systemctl");
    assert_eq!(restart_command().args, vec!["restart", "ollama"]);
    assert_eq!(restart_reply(&Restarted::Done), "Ollamaの再起動が完了したよ〜！");
    assert_eq!(
        restart_reply(&Restarted::Failed(b"no\xff".to_vec())),
        "再起動に失敗しちゃったみたい〜。\n```\nno\u{fffd}\n```"
    );
    assert_eq!(
        restart_reply(&Restarted::NotRun),
        "systemctlの実行自体に失敗しちゃったよ〜。"
    );
}

#[test]
fn a_message_goes_to_the_model() {
    let mut turn = ask(&handler(true), &message(42, " やっほー "));
    assert_eq!(turn.user, "42");
    assert_eq!(turn.key, "42_9");
    assert_eq!(turn.query, " やっほー ");
    assert!(turn.images.is_empty());
    let now = LocalTime::new(2025, 3, 4, 5, 6, 7, 8).unwrap();
    let r = turn.request("http://x", "k", &now, "c");
    assert_eq!(r.body["inputs"]["current_time"].as_str(), Some("2025年03月04日 05:06"));
    assert_eq!(r.body["query"].as_str(), Some(" やっほー "));
    assert_eq!(r.body["conversation_id"].as_str(), Some("c"));
    assert_eq!(r.body["user"].as_str(), Some("42"));
    assert!(r.body.get("files").is_none());
    turn.uploaded("f".to_string());
    let r = turn.request("http://x", "k", &now, "c");
    assert_eq!(r.body["files"][0]["upload_file_id"].as_str(), Some("f"));
}

#[test]
fn conversations_are_kept_apart() {
    let h = handler(true);
    let mut keys = Vec::new();
    for (author, channel) in [(1, 11), (11, 1), (1, 1), (111, 1)] {
        let mut msg = message(author, "x");
        msg.channel_id = channel;
        keys.push(ask(&h, &msg).key);
    }
    keys.push("web_web".to_string());
    keys.push("voice_1".to_string());
    let all = keys.len();
    keys.sort();
    keys.dedup();
    assert_eq!(keys.len(), all);
}

#[test]
fn images_are_handed_on_where_the_model_can_see() {
    let mut msg = message(42, "");
    msg.attachments = vec![
        attachment("a.txt", Some("text/plain")),
        attachment("b.PNG", None),
        attachment("c", Some("image/webp")),
        attachment("d.gif", Some("image/gif")),
    ];
    let turn = ask(&handler(true), &msg);
    assert_eq!(turn.images, vec![1, 2]);
    assert_eq!(turn.query, "（画像を送ったよ）");
    let turn = ask(&handler(false), &msg);
    assert!(turn.images.is_empty());
    assert_eq!(turn.query, "（画像を送ったよ）");
    msg.content = "見て".to_string();
    assert_eq!(ask(&handler(true), &msg).query, "見て");
    assert_eq!(ask(&handler(true), &message(42, "")).query, "");
}

#[test]
fn an_answer_is_sent_and_remembered() {
    let turn = ask(&handler(true), &message(42, "問い"));
    let f = turn.finish(&answered("<think>うーん</think>\n答え", "c"));
    assert_eq!(f.keep.as_deref(), Some("c"));
    assert_eq!(f.say, vec!["答え"]);
    let remember = f.remember.unwrap();
    assert_eq!(remember.user_input, "問い");
    assert_eq!(remember.bot_reply, "<think>うーん</think>\n答え");
}

#[test]
fn a_long_answer_is_sent_in_pieces() {
    let turn = ask(&handler(true), &message(42, "問い"));
    let answer = "あ".repeat(4000);
    let f = turn.finish(&answered(&answer, ""));
    assert!(f.keep.is_none());
    let sizes: Vec<usize> = f.say.iter().map(|m| m.chars().count()).collect();
    assert_eq!(sizes, vec![1900, 1900, 200]);
    assert_eq!(f.say.concat(), answer);
}

#[test]
fn an_answer_of_thoughts_alone_is_no_answer() {
    let turn = ask(&handler(true), &message(42, "問い"));
    for answer in ["", "<think>x</think>", " \n"] {
        let f = turn.finish(&answered(answer, "c"));
        assert_eq!(f.keep.as_deref(), Some("c"));
        assert_eq!(f.say, vec!["ごめんね、うまく返事が受け取れなかったみたい〜。"]);
        assert!(f.remember.is_none());
    }
}

#[test]
fn failures_are_told() {
    let turn = ask(&handler(true), &message(42, "問い"));
    for (outcome, said) in [
        (
            Outcome::Unreachable("u".to_string()),
            "ごめんね、今ちょっと頭が回らなくてお返事できないみたい〜。",
        ),
        (
            Outcome::Refused("502 Bad Gateway".to_string()),
            "ごめんね、ヤッチョのサーバー側でエラーが出ちゃったみたい〜。（502 Bad Gateway）",
        ),
        (
            Outcome::Broken("b".to_string()),
            "ごめんね、返事の受け取りに失敗しちゃったみたい〜。",
        ),
    ] {
        let f = turn.finish(&outcome);
        assert!(f.keep.is_none());
        assert_eq!(f.say, vec![said]);
        assert!(f.remember.is_none());
    }
}

#[test]
fn an_exchange_is_read_back() {
    let turn = ask(&handler(true), &message(42, "問い"));
    let remember = turn.finish(&answered("<think>t</think>\n答え", "")).remember.unwrap();
    let now = LocalTime::new(2025, 3, 4, 5, 6, 7, 8).unwrap();
    let mut log = String::new();
    append_chat_log(&mut log, &now, &remember.user_input, &remember.bot_reply);
    let entries = read_last_entries(&log, 5);
    assert_eq!(entries[0].timestamp, "2025-03-04 05:06:07");
    assert_eq!(entries[0].user_text, "問い");
    assert_eq!(entries[0].bot_reply, "<think>t</think>\n答え");
}
