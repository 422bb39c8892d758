use yachiyo::clock::LocalTime;
use yachiyo::dify::base_url;
use yachiyo::dify::bearer;
use yachiyo::dify::chat_request;
use yachiyo::dify::chat_url;
use yachiyo::dify::read_document_id;
use yachiyo::dify::read_id;
use yachiyo::dify::upload_of;
use yachiyo::dify::upload_result;
use yachiyo::dify::upload_url;
use yachiyo::dify::IdRead;
use yachiyo::dify::Reply;
use yachiyo::dify::Upload;
use yachiyo::knowledge::add_segment_to_dify;
use yachiyo::knowledge::made_id;
use yachiyo::knowledge::segment_result;
use yachiyo::knowledge::setup_dify_knowledge;
use yachiyo::knowledge::KnowledgeSettings;

fn now() -> LocalTime {
    LocalTime::new(2025, 3, 4, 5, 6, 7, 8).unwrap()
}

fn json(s: &str) -> serde_json::Value {
    serde_json::from_str(s).unwrap()
}

fn some(s: &str) -> Option<String> {
    Some(s.to_string())
}

fn accepted(s: &str) -> Reply {
    Reply::Accepted(s.as_bytes().to_vec())
}

fn refused() -> Reply {
    Reply::Refused { status: "404 Not Found".to_string(), body: "no".to_string() }
}

fn settings(key: bool, dataset: bool, document: bool) -> KnowledgeSettings {
    KnowledgeSettings {
        base_url: some("http://d"),
        dataset_api_key: if key { some("k") } else { None },
        dataset_id: if dataset { some("ds") } else { None },
        document_id: if document { some("doc") } else { None },
    }
}

#[test]
fn addresses_and_headers() {
    assert_eq!(base_url(None), "http://127.0.0.1");
    assert_eq!(base_url(some("http://x")), "http://x");
    assert_eq!(bearer("k"), "Bearer k");
    assert_eq!(chat_url("http://x"), "http://x/v1/chat-messages");
    assert_eq!(upload_url("http://x"), "http://x/v1/files/upload");
}

#[test]
fn a_question_is_a_request() {
    let none: Vec<String> = Vec::new();
    let r = chat_request("http://x", "k", &now(), "q", "c", "u", &none);
    assert_eq!(r.url, "http://x/v1/chat-messages");
    assert_eq!(r.authorization, "Bearer k");
    assert_eq!(
        r.body,
        json("{\"inputs\":{\"current_time\":\"2025年03月04日 05:06\"},\"query\":\"q\",\"response_mode\":\"streaming\",\"conversation_id\":\"c\",\"user\":\"u\"}")
    );
    let two = vec!["f1".to_string(), "f2".to_string()];
    let r = chat_request("http://x", "k", &now(), "q", "", "u", &two);
    assert_eq!(
        r.body["files"],
        json("[{\"type\":\"image\",\"transfer_method\":\"local_file\",\"upload_file_id\":\"f1\"},{\"type\":\"image\",\"transfer_method\":\"local_file\",\"upload_file_id\":\"f2\"}]")
    );
}

#[test]
fn identifiers_are_read() {
    assert!(matches!(read_id(b"{\"id\":\"x\"}"), IdRead::Id(s) if s == "x"));
    assert!(matches!(read_id(b"{\"id\":7}"), IdRead::NoId));
    assert!(matches!(read_id(b"[]"), IdRead::NoId));
    assert!(matches!(read_id(b"{"), IdRead::NotJson));
    assert!(matches!(
        read_document_id(b"{\"document\":{\"id\":\"y\"},\"id\":\"x\"}"),
        IdRead::Id(s) if s == "y"
    ));
    assert!(matches!(read_document_id(b"{\"id\":\"x\"}"), IdRead::NoId));
    assert!(matches!(read_document_id(b"\xff"), IdRead::NotJson));
}

#[test]
fn uploads_end_in_a_name_or_a_failure() {
    let what = "Difyファイルアップロード失敗: ";
    assert!(matches!(upload_result(accepted("{\"id\":\"x\"}"), what), Upload::Done(s) if s == "x"));
    assert!(matches!(
        upload_result(accepted("{}"), what),
        Upload::Failed(e) if e == "upload_file_idが取得できなかった"
    ));
    assert!(matches!(upload_result(accepted("?"), what), Upload::NotJson));
    assert!(matches!(
        upload_result(refused(), what),
        Upload::Failed(e) if e == "Difyファイルアップロード失敗: 404 Not Found / no"
    ));
    assert!(matches!(
        upload_result(Reply::Unreachable("why".to_string()), what),
        Upload::Failed(e) if e == "why"
    ));
    assert!(matches!(upload_of(IdRead::Id("z".to_string())), Upload::Done(s) if s == "z"));
}

#[test]
fn a_segment_is_a_request() {
    let r = add_segment_to_dify(settings(true, true, true), &now(), "u", "b");
    let r = r.ok().unwrap();
    assert_eq!(r.url, "http://d/v1/datasets/ds/documents/doc/segments");
    assert_eq!(r.authorization, "Bearer k");
    assert_eq!(
        r.body,
        json("{\"segments\":[{\"content\":\"[2025-03-04 05:06:07] の会話\\nshunrin824: u\\n月見ヤチヨ: b\",\"keywords\":[]}]}")
    );
}

#[test]
fn a_segment_needs_its_settings() {
    let lack = |key, dataset, document| {
        add_segment_to_dify(settings(key, dataset, document), &now(), "u", "b").err().unwrap()
    };
    assert_eq!(lack(false, false, false), "DIFY_DATASET_API_KEYが設定されていないよ！");
    assert_eq!(lack(true, false, false), "DIFY_DATASET_IDが設定されていないよ！");
    assert_eq!(lack(true, true, false), "DIFY_DOCUMENT_IDが設定されていないよ！");
}

#[test]
fn a_segment_is_added_or_not() {
    assert!(segment_result(accepted("")).is_ok());
    assert_eq!(
        segment_result(refused()),
        Err("Difyセグメント追加エラー: 404 Not Found / no".to_string())
    );
    assert_eq!(segment_result(Reply::Unreachable("e".to_string())), Err("e".to_string()));
}

#[test]
fn the_setup_goes_through() {
    let (setup, request) = setup_dify_knowledge(settings(true, true, false)).ok().unwrap().unwrap();
    assert_eq!(request.url, "http://d/v1/datasets");
    assert_eq!(request.authorization, "Bearer k");
    assert_eq!(
        request.body,
        json("{\"name\":\"ヤチヨの長期記憶\",\"description\":\"月見ヤチヨとshunrin824の会話ログ\",\"indexing_technique\":\"high_quality\",\"permission\":\"only_me\",\"embedding_model\":\"bge-m3\",\"embedding_model_provider\":\"ollama\"}")
    );
    let (document, request) = setup.dataset_made(accepted("{\"id\":\"D\"}")).ok().unwrap();
    assert_eq!(request.url, "http://d/v1/datasets/D/document/create_by_text");
    assert_eq!(request.authorization, "Bearer k");
    assert_eq!(
        request.body,
        json("{\"name\":\"chat_memory\",\"text\":\"# 月見ヤチヨの長期記憶\\nこのドキュメントにはヤチヨとshunrin824の会話ログが蓄積されます。\\n\",\"indexing_technique\":\"high_quality\",\"embedding_model\":\"bge-m3\",\"embedding_model_provider\":\"ollama\",\"process_rule\":{\"mode\":\"automatic\"}}")
    );
    let made = document.document_made(accepted("{\"document\":{\"id\":\"E\"}}")).ok().unwrap();
    assert_eq!(made.dataset_id, "D");
    assert_eq!(made.document_id, "E");
    assert_eq!(made.env_addition, "\nDIFY_DATASET_ID=D\nDIFY_DOCUMENT_ID=E\n");
    assert_eq!(
        made.env_addition.lines().collect::<Vec<_>>(),
        vec!["", "DIFY_DATASET_ID=D", "DIFY_DOCUMENT_ID=E"]
    );
    let mut later = settings(true, false, false);
    later.dataset_id = Some(made.dataset_id);
    later.document_id = Some(made.document_id);
    assert!(add_segment_to_dify(later, &now(), "u", "b").is_ok());
}

#[test]
fn the_setup_may_be_over_or_impossible() {
    assert!(matches!(setup_dify_knowledge(settings(false, true, true)), Ok(None)));
    assert_eq!(
        setup_dify_knowledge(settings(false, true, false)).err().unwrap(),
        "DIFY_DATASET_API_KEYが設定されていないよ！"
    );
}

#[test]
fn the_setup_may_fail_at_the_dataset() {
    let fail = |reply| {
        let (setup, _) = setup_dify_knowledge(settings(true, false, false)).ok().unwrap().unwrap();
        setup.dataset_made(reply).err().unwrap()
    };
    assert_eq!(fail(refused()), "ナレッジベース作成失敗: 404 Not Found / no");
    assert_eq!(
        fail(Reply::Unreachable("e".to_string())),
        "ナレッジベース作成エラー: e"
    );
    assert_eq!(fail(accepted("x")), "レスポンスのパースに失敗");
    assert_eq!(fail(accepted("{}")), "dataset_idが取れなかった");
}

#[test]
fn the_setup_may_fail_at_the_document() {
    let fail = |reply| {
        let (setup, _) = setup_dify_knowledge(settings(true, false, false)).ok().unwrap().unwrap();
        let (document, _) = setup.dataset_made(accepted("{\"id\":\"D\"}")).ok().unwrap();
        document.document_made(reply).err().unwrap()
    };
    assert_eq!(fail(refused()), "ドキュメント作成失敗: 404 Not Found");
    assert_eq!(
        fail(Reply::Unreachable("e".to_string())),
        "ドキュメント作成エラー: e"
    );
    assert_eq!(fail(accepted("x")), "レスポンスのパースに失敗");
    assert_eq!(fail(accepted("{\"document\":{}}")), "document_idが取れなかった");
    assert_eq!(made_id(IdRead::NoId, "none"), Err("none".to_string()));
    assert_eq!(made_id(IdRead::Id("i".to_string()), "none"), Ok("i".to_string()));
}
