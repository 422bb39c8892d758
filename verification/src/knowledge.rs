//! The knowledge base that keeps what was said: how it is set up, and how an exchange is
//! added to it.

use vstd::prelude::*;
use vstd::string::StringExecFns;

use crate::clock;
use crate::clock::log_time;
use crate::clock::LocalTime;
use crate::dify;
use crate::dify::base_url;
use crate::dify::bearer;
use crate::dify::read_document_id;
use crate::dify::read_id;
use crate::dify::refusal_text;
use crate::dify::DifyRequest;
use crate::dify::IdRead;
use crate::dify::Reply;
use crate::json;
use crate::json::json_array;
use crate::json::json_null;
use crate::json::json_set;
use crate::json::json_set_text;
use crate::json::Json;
use crate::text;

verus! {

/// What is set for the knowledge base.
pub struct KnowledgeSettings {
    pub base_url: Option<String>,
    pub dataset_api_key: Option<String>,
    pub dataset_id: Option<String>,
    pub document_id: Option<String>,
}

/// The address of the service.
pub open spec fn base_of(settings: KnowledgeSettings) -> Seq<char> {
    text::or_else(settings.base_url, dify::default_base_url())
}

pub open spec fn no_api_key() -> Seq<char> {
    "DIFY_DATASET_API_KEYが設定されていないよ！"@
}

/// What is kept of an exchange.
pub open spec fn segment_text(time: Seq<char>, user: Seq<char>, bot: Seq<char>) -> Seq<char> {
    "["@ + time + "] の会話\nshunrin824: "@ + user + "\n月見ヤチヨ: "@ + bot
}

/// The document that adds a segment.
pub open spec fn segment_json(content: Seq<char>) -> Json {
    json::object1(
        "segments"@,
        Json::Array(
            seq![
                Json::Object(
                    Map::empty().insert("content"@, Json::Str(content)).insert(
                        "keywords"@,
                        Json::Array(seq![]),
                    ),
                ),
            ],
        ),
    )
}

/// Where segments go.
pub open spec fn segments_url(base: Seq<char>, dataset: Seq<char>, document: Seq<char>) -> Seq<
    char,
> {
    base + "/v1/datasets/"@ + dataset + "/documents/"@ + document + "/segments"@
}

/// The first thing that is not set of what a segment needs.
pub open spec fn segment_lack(settings: KnowledgeSettings) -> Option<Seq<char>> {
    if settings.dataset_api_key is None {
        Some(no_api_key())
    } else if settings.dataset_id is None {
        Some("DIFY_DATASET_IDが設定されていないよ！"@)
    } else if settings.document_id is None {
        Some("DIFY_DOCUMENT_IDが設定されていないよ！"@)
    } else {
        None
    }
}

/// The request that adds an exchange to the knowledge base.
pub fn add_segment_to_dify(
    settings: KnowledgeSettings,
    now: &LocalTime,
    user_input: &str,
    bot_reply: &str,
) -> (r: Result<DifyRequest, String>)
    requires
        now.valid(),
    ensures
        match (r, segment_lack(settings)) {
            (Err(e), Some(lack)) => e@ == lack,
            (Ok(request), None) => {
                &&& request.url@ == segments_url(
                    base_of(settings),
                    settings.dataset_id->0@,
                    settings.document_id->0@,
                )
                &&& request.authorization@ == "Bearer "@ + settings.dataset_api_key->0@
                &&& json::json_of(request.body) == segment_json(
                    segment_text(
                        clock::formatted(*now, "%Y-%m-%d %H:%M:%S"@),
                        user_input@,
                        bot_reply@,
                    ),
                )
            },
            _ => false,
        },
{
    let base = base_url(settings.base_url);
    let key = match settings.dataset_api_key {
        Some(key) => key,
        None => {
            return Err(String::from_str("DIFY_DATASET_API_KEYが設定されていないよ！"));
        },
    };
    let dataset_id = match settings.dataset_id {
        Some(id) => id,
        None => {
            return Err(String::from_str("DIFY_DATASET_IDが設定されていないよ！"));
        },
    };
    let document_id = match settings.document_id {
        Some(id) => id,
        None => {
            return Err(String::from_str("DIFY_DOCUMENT_IDが設定されていないよ！"));
        },
    };
    let mut content = String::from_str("[");
    content.append(log_time(now).as_str());
    content.append("] の会話\nshunrin824: ");
    content.append(user_input);
    content.append("\n月見ヤチヨ: ");
    content.append(bot_reply);
    let mut url = base;
    url.append("/v1/datasets/");
    url.append(dataset_id.as_str());
    url.append("/documents/");
    url.append(document_id.as_str());
    url.append("/segments");
    let keywords: Vec<serde_json::Value> = Vec::new();
    assert(json::jsons_of(keywords@) =~= Seq::<Json>::empty());
    let mut segment = json_null();
    json_set_text(&mut segment, "content", content.as_str());
    json_set(&mut segment, "keywords", json_array(keywords));
    let ghost one = json::json_of(segment);
    let mut segments: Vec<serde_json::Value> = Vec::new();
    segments.push(segment);
    assert(json::jsons_of(segments@) =~= seq![one]);
    let mut body = json_null();
    json_set(&mut body, "segments", json_array(segments));
    Ok(DifyRequest { url, authorization: bearer(key.as_str()), body })
}

/// Whether a segment was added.
pub fn segment_result(reply: Reply) -> (r: Result<(), String>)
    ensures
        match reply {
            Reply::Unreachable(why) => r == Err::<(), String>(why),
            Reply::Refused { status, body } => r matches Err(e) && e@ == dify::refusal(
                "Difyセグメント追加エラー: "@,
                status@,
                body@,
            ),
            Reply::Accepted(_) => r is Ok,
        },
{
    match reply {
        Reply::Unreachable(why) => Err(why),
        Reply::Refused { status, body } => Err(
            refusal_text("Difyセグメント追加エラー: ", status.as_str(), body.as_str()),
        ),
        Reply::Accepted(_) => Ok(()),
    }
}

/// The document that makes the knowledge base.
pub open spec fn dataset_json() -> Json {
    Json::Object(
        Map::empty().insert("name"@, Json::Str("ヤチヨの長期記憶"@)).insert(
            "description"@,
            Json::Str("月見ヤチヨとshunrin824の会話ログ"@),
        ).insert("indexing_technique"@, Json::Str("high_quality"@)).insert(
            "permission"@,
            Json::Str("only_me"@),
        ).insert("embedding_model"@, Json::Str("bge-m3"@)).insert(
            "embedding_model_provider"@,
            Json::Str("ollama"@),
        ),
    )
}

/// The document that makes the document in the knowledge base.
pub open spec fn document_json() -> Json {
    Json::Object(
        Map::empty().insert("name"@, Json::Str("chat_memory"@)).insert(
            "text"@,
            Json::Str(
                "# 月見ヤチヨの長期記憶\nこのドキュメントにはヤチヨとshunrin824の会話ログが蓄積されます。\n"@,
            ),
        ).insert("indexing_technique"@, Json::Str("high_quality"@)).insert(
            "embedding_model"@,
            Json::Str("bge-m3"@),
        ).insert("embedding_model_provider"@, Json::Str("ollama"@)).insert(
            "process_rule"@,
            json::object1("mode"@, Json::Str("automatic"@)),
        ),
    )
}

/// The knowledge base while it is set up.
pub struct Setup {
    pub base_url: String,
    pub dataset_api_key: String,
}

/// The knowledge base while its document is made.
pub struct DocumentSetup {
    pub dataset_id: String,
}

/// A knowledge base that was set up.
pub struct Knowledge {
    pub dataset_id: String,
    pub document_id: String,
    /// What is added to the settings file.
    pub env_addition: String,
}

/// Whether the knowledge base is there already.
pub open spec fn is_set_up(settings: KnowledgeSettings) -> bool {
    settings.dataset_id is Some && settings.document_id is Some
}

/// Begins to set up the knowledge base: nothing is to be done where it is there already,
/// and nothing can be done without a key.
pub fn setup_dify_knowledge(settings: KnowledgeSettings) -> (r: Result<
    Option<(Setup, DifyRequest)>,
    String,
>)
    ensures
        if is_set_up(settings) {
            r == Ok::<Option<(Setup, DifyRequest)>, String>(None)
        } else {
            match settings.dataset_api_key {
                None => r matches Err(e) && e@ == no_api_key(),
                Some(key) => r matches Ok(Some((setup, request))) && setup.base_url@ == base_of(
                    settings,
                ) && setup.dataset_api_key@ == key@ && request.url@ == base_of(settings)
                    + "/v1/datasets"@ && request.authorization@ == "Bearer "@ + key@
                    && json::json_of(request.body) == dataset_json(),
            }
        },
{
    if settings.dataset_id.is_some() && settings.document_id.is_some() {
        return Ok(None);
    }
    let base = base_url(settings.base_url);
    let key = match settings.dataset_api_key {
        Some(key) => key,
        None => {
            return Err(String::from_str("DIFY_DATASET_API_KEYが設定されていないよ！"));
        },
    };
    let mut body = json_null();
    json_set_text(&mut body, "name", "ヤチヨの長期記憶");
    json_set_text(&mut body, "description", "月見ヤチヨとshunrin824の会話ログ");
    json_set_text(&mut body, "indexing_technique", "high_quality");
    json_set_text(&mut body, "permission", "only_me");
    json_set_text(&mut body, "embedding_model", "bge-m3");
    json_set_text(&mut body, "embedding_model_provider", "ollama");
    let mut url = String::from_str(base.as_str());
    url.append("/v1/datasets");
    let authorization = bearer(key.as_str());
    Ok(
        Some(
            (
                Setup { base_url: base, dataset_api_key: key },
                DifyRequest { url, authorization, body },
            ),
        ),
    )
}

/// The identifier of what was made, or why there is none; `no_id` is said where the reply
/// does not hold it.
pub fn made_id(read: IdRead, no_id: &str) -> (r: Result<String, String>)
    ensures
        match read {
            IdRead::NotJson => r matches Err(e) && e@ == "レスポンスのパースに失敗"@,
            IdRead::NoId => r matches Err(e) && e@ == no_id@,
            IdRead::Id(id) => r == Ok::<String, String>(id),
        },
{
    match read {
        IdRead::NotJson => Err(String::from_str("レスポンスのパースに失敗")),
        IdRead::NoId => Err(String::from_str(no_id)),
        IdRead::Id(id) => Ok(id),
    }
}

impl Setup {
    /// Goes on once the service has replied about the knowledge base: its document is next.
    pub fn dataset_made(self, reply: Reply) -> (r: Result<(DocumentSetup, DifyRequest), String>)
        ensures
            match reply {
                Reply::Unreachable(why) => r matches Err(e) && e@
                    == "ナレッジベース作成エラー: "@ + why@,
                Reply::Refused { status, body } => r matches Err(e) && e@ == dify::refusal(
                    "ナレッジベース作成失敗: "@,
                    status@,
                    body@,
                ),
                Reply::Accepted(bytes) => match json::json_parsed_bytes(bytes@) {
                    None => r matches Err(e) && e@ == "レスポンスのパースに失敗"@,
                    Some(doc) => match doc.member("id"@).text() {
                        None => r matches Err(e) && e@ == "dataset_idが取れなかった"@,
                        Some(id) => r matches Ok((next, request)) && next.dataset_id@ == id
                            && request.url@ == self.base_url@ + "/v1/datasets/"@ + id
                            + "/document/create_by_text"@ && request.authorization@ == "Bearer "@
                            + self.dataset_api_key@ && json::json_of(request.body)
                            == document_json(),
                    },
                },
            },
    {
        let dataset_id = match reply {
            Reply::Unreachable(why) => {
                let mut e = String::from_str("ナレッジベース作成エラー: ");
                e.append(why.as_str());
                return Err(e);
            },
            Reply::Refused { status, body } => {
                return Err(
                    refusal_text("ナレッジベース作成失敗: ", status.as_str(), body.as_str()),
                );
            },
            Reply::Accepted(bytes) => match made_id(
                read_id(bytes.as_slice()),
                "dataset_idが取れなかった",
            ) {
                Ok(id) => id,
                Err(e) => {
                    return Err(e);
                },
            },
        };
        let mut rule = json_null();
        json_set_text(&mut rule, "mode", "automatic");
        let mut body = json_null();
        json_set_text(&mut body, "name", "chat_memory");
        json_set_text(
            &mut body,
            "text",
            "# 月見ヤチヨの長期記憶\nこのドキュメントにはヤチヨとshunrin824の会話ログが蓄積されます。\n",
        );
        json_set_text(&mut body, "indexing_technique", "high_quality");
        json_set_text(&mut body, "embedding_model", "bge-m3");
        json_set_text(&mut body, "embedding_model_provider", "ollama");
        json_set(&mut body, "process_rule", rule);
        let authorization = bearer(self.dataset_api_key.as_str());
        let mut url = self.base_url;
        url.append("/v1/datasets/");
        url.append(dataset_id.as_str());
        url.append("/document/create_by_text");
        Ok((DocumentSetup { dataset_id }, DifyRequest { url, authorization, body }))
    }
}

/// What is added to the settings file.
pub open spec fn env_lines(dataset: Seq<char>, document: Seq<char>) -> Seq<char> {
    "\nDIFY_DATASET_ID="@ + dataset + "\nDIFY_DOCUMENT_ID="@ + document + "\n"@
}

impl DocumentSetup {
    /// Ends the setup once the service has replied about the document.
    pub fn document_made(self, reply: Reply) -> (r: Result<Knowledge, String>)
        ensures
            match reply {
                Reply::Unreachable(why) => r matches Err(e) && e@ == "ドキュメント作成エラー: "@
                    + why@,
                Reply::Refused { status, body } => r matches Err(e) && e@
                    == "ドキュメント作成失敗: "@ + status@,
                Reply::Accepted(bytes) => match json::json_parsed_bytes(bytes@) {
                    None => r matches Err(e) && e@ == "レスポンスのパースに失敗"@,
                    Some(doc) => match doc.member("document"@).member("id"@).text() {
                        None => r matches Err(e) && e@ == "document_idが取れなかった"@,
                        Some(id) => r matches Ok(k) && k.dataset_id@ == self.dataset_id@
                            && k.document_id@ == id && k.env_addition@ == env_lines(
                            self.dataset_id@,
                            id,
                        ),
                    },
                },
            },
    {
        let document_id = match reply {
            Reply::Unreachable(why) => {
                let mut e = String::from_str("ドキュメント作成エラー: ");
                e.append(why.as_str());
                return Err(e);
            },
            Reply::Refused { status, body: _ } => {
                let mut e = String::from_str("ドキュメント作成失敗: ");
                e.append(status.as_str());
                return Err(e);
            },
            Reply::Accepted(bytes) => match made_id(
                read_document_id(bytes.as_slice()),
                "document_idが取れなかった",
            ) {
                Ok(id) => id,
                Err(e) => {
                    return Err(e);
                },
            },
        };
        let mut env_addition = String::from_str("\nDIFY_DATASET_ID=");
        env_addition.append(self.dataset_id.as_str());
        env_addition.append("\nDIFY_DOCUMENT_ID=");
        env_addition.append(document_id.as_str());
        env_addition.append("\n");
        Ok(Knowledge { dataset_id: self.dataset_id, document_id, env_addition })
    }
}

/// Once the two identifiers are set that a setup ends with, there is nothing left to set
/// up, and segments can be added.
pub proof fn law_setup_is_lasting(settings: KnowledgeSettings, made: Knowledge)
    requires
        settings.dataset_api_key is Some,
    ensures
        ({
            let later = KnowledgeSettings {
                dataset_id: Some(made.dataset_id),
                document_id: Some(made.document_id),
                ..settings
            };
            is_set_up(later) && segment_lack(later) is None
        }),
{
}

/// In the settings file each identifier stands on a line of its own, whatever the file ended
/// with before. An identifier with a line end in it is left out.
pub proof fn law_identifiers_have_their_lines(dataset: Seq<char>, document: Seq<char>)
    requires
        !dataset.contains('\n'),
        text::without_cr(dataset) == dataset,
        !document.contains('\n'),
        text::without_cr(document) == document,
    ensures
        text::lines(env_lines(dataset, document)) == seq![
            ""@,
            "DIFY_DATASET_ID="@ + dataset,
            "DIFY_DOCUMENT_ID="@ + document,
        ],
{
    reveal_strlit("");
    reveal_strlit("\n");
    reveal_strlit("\nDIFY_DATASET_ID=");
    reveal_strlit("\nDIFY_DOCUMENT_ID=");
    reveal_strlit("DIFY_DATASET_ID=");
    reveal_strlit("DIFY_DOCUMENT_ID=");
    let a = ""@;
    let b = "DIFY_DATASET_ID="@ + dataset;
    let c = "DIFY_DOCUMENT_ID="@ + document;
    let lf: Seq<char> = seq!['\n'];
    let all = (a + lf) + ((b + lf) + (c + lf));
    assert(env_lines(dataset, document) =~= all);
    assert(!b.contains('\n')) by {
        if b.contains('\n') {
            let i = choose|i: int| 0 <= i < b.len() && b[i] == '\n';
            if i >= 16 {
                assert(dataset[i - 16] == '\n');
            }
        }
    }
    assert(!c.contains('\n')) by {
        if c.contains('\n') {
            let i = choose|i: int| 0 <= i < c.len() && c[i] == '\n';
            if i >= 17 {
                assert(document[i - 17] == '\n');
            }
        }
    }
    if dataset.len() > 0 {
        assert(b.last() == dataset.last());
    }
    if document.len() > 0 {
        assert(c.last() == document.last());
    }
    text::lemma_one_line(a);
    text::lemma_one_line(b);
    text::lemma_one_line(c);
    text::lemma_lines_add(b + lf, c + lf);
    text::lemma_lines_add(a + lf, (b + lf) + (c + lf));
    assert(text::lines(all) =~= seq![a, b, c]);
}

/// What a segment is: the time and both sides of the exchange, in one document with no
/// keywords, sent to the segments of the document in the knowledge base.
pub proof fn law_segment(
    time: Seq<char>,
    user: Seq<char>,
    bot: Seq<char>,
    base: Seq<char>,
    dataset: Seq<char>,
    document: Seq<char>,
)
    ensures
        segment_text(time, user, bot) == "["@ + time + "] の会話\nshunrin824: "@ + user
            + "\n月見ヤチヨ: "@ + bot,
        segment_json(segment_text(time, user, bot)) == Json::Object(
            map![
                "segments"@ => Json::Array(
                    seq![
                        Json::Object(
                            map![
                                "content"@ => Json::Str(segment_text(time, user, bot)),
                                "keywords"@ => Json::Array(seq![]),
                            ],
                        ),
                    ],
                ),
            ],
        ),
        segments_url(base, dataset, document) == base + "/v1/datasets/"@ + dataset
            + "/documents/"@ + document + "/segments"@,
{
    let content = segment_text(time, user, bot);
    let inner = map!["content"@ => Json::Str(content), "keywords"@ => Json::Array(seq![])];
    let one = Map::<Seq<char>, Json>::empty().insert("content"@, Json::Str(content)).insert(
        "keywords"@,
        Json::Array(seq![]),
    );
    assert(one =~= inner);
    let list = Json::Array(seq![Json::Object(one)]);
    assert(Map::<Seq<char>, Json>::empty().insert("segments"@, list) =~= map![
        "segments"@ => list,
    ]);
}

/// What a segment needs is asked for in this order: the key, the knowledge base, the document.
pub proof fn law_segment_needs_its_settings(s: KnowledgeSettings)
    ensures
        s.dataset_api_key is None ==> segment_lack(s) == Some(
            "DIFY_DATASET_API_KEYが設定されていないよ！"@,
        ),
        s.dataset_api_key is Some && s.dataset_id is None ==> segment_lack(s) == Some(
            "DIFY_DATASET_IDが設定されていないよ！"@,
        ),
        s.dataset_api_key is Some && s.dataset_id is Some && s.document_id is None
            ==> segment_lack(s) == Some("DIFY_DOCUMENT_IDが設定されていないよ！"@),
        s.dataset_api_key is Some && s.dataset_id is Some && s.document_id is Some
            ==> segment_lack(s) is None,
        no_api_key() == "DIFY_DATASET_API_KEYが設定されていないよ！"@,
        is_set_up(s) <==> s.dataset_id is Some && s.document_id is Some,
        base_of(s) == match s.base_url {
            Some(url) => url@,
            None => "http://127.0.0.1"@,
        },
{
}

/// What is added to the settings file, whatever the identifiers are.
pub proof fn law_env_lines(dataset: Seq<char>, document: Seq<char>)
    ensures
        env_lines(dataset, document) == "\nDIFY_DATASET_ID="@ + dataset + "\nDIFY_DOCUMENT_ID="@
            + document + "\n"@,
{
}

/// What the knowledge base and its document are made with.
pub proof fn law_what_is_made()
    ensures
        dataset_json() == Json::Object(
            map![
                "name"@ => Json::Str("ヤチヨの長期記憶"@),
                "description"@ => Json::Str("月見ヤチヨとshunrin824の会話ログ"@),
                "indexing_technique"@ => Json::Str("high_quality"@),
                "permission"@ => Json::Str("only_me"@),
                "embedding_model"@ => Json::Str("bge-m3"@),
                "embedding_model_provider"@ => Json::Str("ollama"@),
            ],
        ),
        document_json() == Json::Object(
            map![
                "name"@ => Json::Str("chat_memory"@),
                "text"@ => Json::Str(
                    "# 月見ヤチヨの長期記憶\nこのドキュメントにはヤチヨとshunrin824の会話ログが蓄積されます。\n"@,
                ),
                "indexing_technique"@ => Json::Str("high_quality"@),
                "embedding_model"@ => Json::Str("bge-m3"@),
                "embedding_model_provider"@ => Json::Str("ollama"@),
                "process_rule"@ => Json::Object(map!["mode"@ => Json::Str("automatic"@)]),
            ],
        ),
{
    assert(json::object1("mode"@, Json::Str("automatic"@))->Object_0 =~= map![
        "mode"@ => Json::Str("automatic"@),
    ]);
    assert(dataset_json()->Object_0 =~= map![
        "name"@ => Json::Str("ヤチヨの長期記憶"@),
        "description"@ => Json::Str("月見ヤチヨとshunrin824の会話ログ"@),
        "indexing_technique"@ => Json::Str("high_quality"@),
        "permission"@ => Json::Str("only_me"@),
        "embedding_model"@ => Json::Str("bge-m3"@),
        "embedding_model_provider"@ => Json::Str("ollama"@),
    ]);
    assert(document_json()->Object_0 =~= map![
        "name"@ => Json::Str("chat_memory"@),
        "text"@ => Json::Str(
            "# 月見ヤチヨの長期記憶\nこのドキュメントにはヤチヨとshunrin824の会話ログが蓄積されます。\n"@,
        ),
        "indexing_technique"@ => Json::Str("high_quality"@),
        "embedding_model"@ => Json::Str("bge-m3"@),
        "embedding_model_provider"@ => Json::Str("ollama"@),
        "process_rule"@ => Json::Object(map!["mode"@ => Json::Str("automatic"@)]),
    ]);
}

}
