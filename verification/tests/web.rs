use yachiyo::auth::basic_auth_middleware;
use yachiyo::auth::credentials_match;
use yachiyo::chat::conversation_of;
use yachiyo::chat::Outcome;
use yachiyo::clock::LocalTime;
use yachiyo::config::admin_user_ids;
use yachiyo::config::auth_user;
use yachiyo::config::image_save_dir;
use yachiyo::config::is_enabled;
use yachiyo::config::lower_is_true;
use yachiyo::config::memory_log_path;
use yachiyo::config::protocol;
use yachiyo::config::tls_files;
use yachiyo::config::web_bind;
use yachiyo::dify_stream::DifyStreamResult;
use yachiyo::memory_log::append_chat_log;
use yachiyo::memory_log::read_last_entries;
use yachiyo::page::chat_page;
use yachiyo::page::index_page;
use yachiyo::picture::PictureError;
use yachiyo::web::field_kind;
use yachiyo::web::make_image;
use yachiyo::web::serve_image;
use yachiyo::web::takes_image;
use yachiyo::web::FieldKind;
use yachiyo::web::Form;
use yachiyo::web::ImageTaken;
use yachiyo::web::AFTER_SEND;
use yachiyo::web::WEB_KEY;

fn now() -> LocalTime {
    LocalTime::new(2025, 3, 4, 5, 6, 7, 8).unwrap()
}

fn some(s: &str) -> Option<String> {
    Some(s.to_string())
}

fn basic(s: &[u8]) -> Option<String> {
    let b64 = base64::Engine::encode(&base64::engine::general_purpose::STANDARD, s);
    Some(format!("Basic {}", b64))
}

fn png() -> Vec<u8> {
    let mut file = std::io::Cursor::new(Vec::new());
    image::DynamicImage::new_rgb8(4, 4).write_to(&mut file, image::ImageFormat::Png).unwrap();
    file.into_inner()
}

fn answered(answer: &str, id: &str) -> Outcome {
    Outcome::Answered(DifyStreamResult {
        answer: answer.to_string(),
        conversation_id: id.to_string(),
    })
}

fn chat_log_entry(at: &LocalTime, user: &str, bot: &str) -> String {
    let mut log = String::new();
    append_chat_log(&mut log, at, user, bot);
    log
}

#[test]
fn the_credentials_let_a_request_in() {
    let user = some("ヤチヨ");
    let pass = some("pa:ss");
    assert!(basic_auth_middleware(&user, &pass, &basic("ヤチヨ:pa:ss".as_bytes())).is_none());
    assert!(basic_auth_middleware(&user, &None, &basic("ヤチヨ:".as_bytes())).is_none());
    assert!(credentials_match("u", &some("p"), Some(b"u:p".to_vec())));
    assert!(!credentials_match("u", &some("p"), None));
}

#[test]
fn nothing_else_lets_a_request_in() {
    let user = some("u");
    let pass = some("p");
    for header in [
        None,
        basic(b"u:q"),
        basic(b"u:p "),
        basic(b"u"),
        basic(b"u:p\xff"),
        some("Basic u:p"),
        some("Basic dTpw="),
        some("basic dTpw"),
        some("Bearer dTpw"),
        some(""),
    ] {
        let refusal = basic_auth_middleware(&user, &pass, &header).unwrap();
        assert_eq!(refusal.status, 401);
        assert_eq!(refusal.header_name, "WWW-Authenticate");
        assert_eq!(refusal.header_value, "Basic realm=\"Yachiyo Chat\"");
        assert_eq!(refusal.body, "Unauthorized");
    }
    assert!(basic_auth_middleware(&user, &pass, &some("Basic dTpw")).is_none());
}

#[test]
fn without_a_user_every_request_gets_in() {
    assert!(basic_auth_middleware(&None, &some("p"), &None).is_none());
    assert!(basic_auth_middleware(&None, &None, &basic(b"x:y")).is_none());
}

#[test]
fn fields_have_kinds() {
    assert!(field_kind("message") == FieldKind::Message);
    assert!(field_kind("images") == FieldKind::Image);
    assert!(field_kind("Message") == FieldKind::Other);
    assert!(field_kind("") == FieldKind::Other);
    assert!(takes_image(&None, &None));
    assert!(takes_image(&some("a.gif"), &None));
    assert!(takes_image(&None, &some("text/plain")));
    assert!(takes_image(&some("x.WEBP"), &some("")));
    assert!(!takes_image(&some("x.gif"), &some("image/gif")));
}

#[test]
fn an_empty_form_is_nothing_to_do() {
    assert_eq!(AFTER_SEND, "/chat");
    assert!(Form::new().close().is_none());
    let mut form = Form::new();
    form.set_message(" \n\u{3000}".to_string());
    assert!(matches!(form.add_image(&[], &now()), ImageTaken::Empty));
    assert!(matches!(
        form.add_image(b"no picture", &now()),
        ImageTaken::Failed(PictureError::Unreadable(_))
    ));
    assert!(form.close().is_none());
}

#[test]
fn a_message_is_a_question() {
    let mut form = Form::new();
    form.set_message("x".to_string());
    form.set_message(" やっほー \n".to_string());
    let turn = form.close().unwrap();
    assert_eq!(turn.message, "やっほー");
    assert_eq!(turn.images_to_upload(true), 0);
    let r = turn.request("http://x", "k", &now(), "c");
    assert_eq!(r.url, "http://x/v1/chat-messages");
    assert_eq!(r.body["query"].as_str(), Some("やっほー"));
    assert_eq!(r.body["user"].as_str(), Some("web_user"));
    assert_eq!(r.body["conversation_id"].as_str(), Some("c"));
    let f = turn.finish(&answered("<think>x</think>", "id"));
    assert_eq!(f.keep.as_deref(), Some("id"));
    let remember = f.remember.unwrap();
    assert_eq!(remember.user_input, "やっほー");
    assert_eq!(remember.bot_reply, "<think>x</think>");
    assert_eq!(WEB_KEY, "web_web");
}

#[test]
fn an_image_is_kept_handed_on_and_read_back() {
    let mut form = Form::new();
    assert!(matches!(form.add_image(&png(), &now()), ImageTaken::Taken));
    let later = LocalTime::new(2025, 3, 4, 5, 6, 7, 9).unwrap();
    assert!(matches!(form.keep_image(Ok(vec![1, 2]), &later), ImageTaken::Taken));
    let mut turn = form.close().unwrap();
    assert_eq!(turn.images.len(), 2);
    assert_eq!(turn.images[1].webp, vec![1, 2]);
    assert_eq!(
        turn.image_path("/d/", 0),
        "/d/web/web_20250304_050607_008.webp"
    );
    assert_eq!(turn.images_to_upload(true), 2);
    assert_eq!(turn.images_to_upload(false), 0);
    let before = turn.request("http://x", "k", &now(), "");
    assert_eq!(before.body["query"].as_str(), Some(""));
    turn.image_saved(0);
    turn.image_saved(1);
    turn.uploaded("f".to_string());
    let r = turn.request("http://x", "k", &now(), "");
    assert_eq!(r.body["query"].as_str(), Some("（画像を送ったよ）"));
    assert_eq!(r.body["files"][0]["upload_file_id"].as_str(), Some("f"));
    let remember = turn.finish(&answered("いいね", "")).remember.unwrap();
    assert_eq!(
        remember.user_input,
        "[画像: web_20250304_050607_008.webp|web_20250304_050607_009.webp] "
    );
    let log = chat_log_entry(&now(), &remember.user_input, &remember.bot_reply);
    let entries = read_last_entries(&log, 5);
    assert_eq!(entries[0].image_filenames, turn.saved);
    assert_eq!(entries[0].user_text, "");
    assert_eq!(entries[0].bot_reply, "いいね");
}

#[test]
fn images_of_one_moment_have_different_names() {
    let mut form = Form::new();
    for i in 0..3u8 {
        assert!(matches!(form.keep_image(Ok(vec![i]), &now()), ImageTaken::Taken));
    }
    assert!(matches!(form.add_image(&png(), &now()), ImageTaken::Taken));
    let turn = form.close().unwrap();
    let names: Vec<&str> = turn.images.iter().map(|i| i.filename.as_str()).collect();
    assert_eq!(
        names,
        vec![
            "web_20250304_050607_008.webp",
            "web_20250304_050607_008_1.webp",
            "web_20250304_050607_008_2.webp",
            "web_20250304_050607_008_3.webp",
        ]
    );
    let file = serve_image(names[3], "d").ok().unwrap();
    assert_eq!(file.path, turn.image_path("d", 3));
    assert_eq!(file.content_type, "image/webp");
}

#[test]
fn an_image_is_made_of_bytes() {
    assert!(make_image(&[]).is_none());
    assert!(make_image(b"no picture").unwrap().is_err());
    assert!(make_image(&png()).unwrap().is_ok());
}

#[test]
fn without_an_answer_nothing_is_remembered() {
    let mut form = Form::new();
    form.set_message("q".to_string());
    let turn = form.close().unwrap();
    let f = turn.finish(&answered("", "id"));
    assert_eq!(f.keep.as_deref(), Some("id"));
    assert!(f.remember.is_none());
    for outcome in [
        Outcome::Unreachable("u".to_string()),
        Outcome::Refused("500".to_string()),
        Outcome::Broken("b".to_string()),
    ] {
        let f = turn.finish(&outcome);
        assert!(f.keep.is_none() && f.remember.is_none());
    }
}

#[test]
fn kept_images_are_served() {
    let f = serve_image("web_20250304_050607_008.webp", "/d//").ok().unwrap();
    assert_eq!(f.path, "/d/web/web_20250304_050607_008.webp");
    assert_eq!(f.content_type, "image/webp");
    let content_type = |name: &str| serve_image(name, "d").ok().unwrap().content_type;
    assert_eq!(content_type("a.jpg"), "image/jpeg");
    assert_eq!(content_type("a.jpeg"), "image/jpeg");
    assert_eq!(content_type("a.png"), "image/png");
    assert_eq!(content_type("a.PNG"), "application/octet-stream");
    for name in ["../x.webp", "a/b.webp", "a\\b.webp", "..", "a..webp"] {
        assert_eq!(serve_image(name, "d").err(), Some(400));
    }
}

#[test]
fn the_fixed_pages() {
    assert!(index_page().starts_with("<!DOCTYPE HTML PUBLIC \"-//W3C//DTD HTML 4.01 Frameset//EN\"\n"));
    assert!(index_page().contains("<frame src=\"/messages\" name=\"messages\""));
    assert!(index_page().ends_with("</html>"));
    assert!(chat_page().contains("<form id=\"chat-form\" method=\"POST\" action=\"/send\" enctype=\"multipart/form-data\">"));
    assert!(chat_page().contains("note.innerHTML = '1行モード（Enter=送信）';"));
    assert!(chat_page().ends_with("</html>"));
}

#[test]
fn conversations_go_on_or_begin() {
    assert_eq!(conversation_of(some("c")), "c");
    assert_eq!(conversation_of(None), "");
}

#[test]
fn administrators_are_listed() {
    assert_eq!(admin_user_ids(some(" 1, ,22 ,,3")), vec!["1", "22", "3"]);
    assert!(admin_user_ids(some("")).is_empty());
    assert!(admin_user_ids(None).is_empty());
}

#[test]
fn things_are_switched_on() {
    assert!(is_enabled(&some("true")) && is_enabled(&some("TRUE")) && is_enabled(&some("True")));
    assert!(!is_enabled(&some("1")) && !is_enabled(&some(" true")) && !is_enabled(&None));
    assert!(lower_is_true("true") && !lower_is_true("TRUE"));
    assert_eq!(auth_user(some("")), None);
    assert_eq!(auth_user(some("u")), some("u"));
    assert_eq!(auth_user(None), None);
}

#[test]
fn https_needs_its_files() {
    assert!(matches!(tls_files(false, None, None), Ok(None)));
    let files = tls_files(true, some("c"), some("k")).ok().unwrap().unwrap();
    assert_eq!((files.cert_path.as_str(), files.key_path.as_str()), ("c", "k"));
    for (c, k) in [(None, some("k")), (some("c"), None), (some(""), some("k")), (some("c"), some(""))] {
        assert_eq!(
            tls_files(true, c, k).err().unwrap(),
            "[ERROR] TLS_ENABLED=true の場合、TLS_CERT_PATH と TLS_KEY_PATH が必要だよ！"
        );
    }
    assert_eq!((protocol(true), protocol(false)), ("https", "http"));
}

#[test]
fn settings_have_defaults() {
    assert_eq!(memory_log_path(None), "/home/shunrin824/data16_1/yachiyo/chat_logs/memory.md");
    assert_eq!(image_save_dir(None), "/home/shunrin824/data16_1/yachiyo/images/");
    assert_eq!(web_bind(None), "0.0.0.0:8080");
    assert_eq!(memory_log_path(some("a")), "a");
    assert_eq!(image_save_dir(some("b")), "b");
    assert_eq!(web_bind(some("c")), "c");
}
