//! Requests to the Dify service, and what its replies mean.

use vstd::prelude::*;
use vstd::string::StringExecFns;

use crate::clock;
use crate::clock::chat_time;
use crate::clock::LocalTime;
use crate::json;
use crate::json::json_array;
use crate::json::json_member;
use crate::json::json_null;
use crate::json::json_set;
use crate::json::json_set_text;
use crate::json::member_text;
use crate::json::parse_json_bytes;
use crate::json::Json;
use crate::text;
use crate::text::text_or;

verus! {

/// A request that sends a document. It is posted as `application/json`.
pub struct DifyRequest {
    pub url: String,
    /// The value of the header `Authorization`.
    pub authorization: String,
    pub body: serde_json::Value,
}

/// What came back for a request.
pub enum Reply {
    /// No reply came; the text says why.
    Unreachable(String),
    /// The reply's status is no success.
    Refused { status: String, body: String },
    /// The reply's status is a success; these are the bytes of its body.
    Accepted(Vec<u8>),
}

/// The address of the service where none is set.
pub open spec fn default_base_url() -> Seq<char> {
    "http://127.0.0.1"@
}

/// The address of the service: the one that is set, or the local machine.
pub fn base_url(setting: Option<String>) -> (r: String)
    ensures
        r@ == text::or_else(setting, default_base_url()),
{
    text_or(setting, "http://127.0.0.1")
}

/// The header value that carries a key.
pub fn bearer(key: &str) -> (r: String)
    ensures
        r@ == "Bearer "@ + key@,
{
    let mut s = String::from_str("Bearer ");
    s.append(key);
    s
}

/// Where chat messages go.
pub fn chat_url(base: &str) -> (r: String)
    ensures
        r@ == base@ + "/v1/chat-messages"@,
{
    let mut s = String::from_str(base);
    s.append("/v1/chat-messages");
    s
}

/// Where files go.
pub fn upload_url(base: &str) -> (r: String)
    ensures
        r@ == base@ + "/v1/files/upload"@,
{
    let mut s = String::from_str(base);
    s.append("/v1/files/upload");
    s
}

/// How a chat message names an image that was uploaded before.
pub open spec fn file_json(id: Seq<char>) -> Json {
    Json::Object(
        Map::empty().insert("type"@, Json::Str("image"@)).insert(
            "transfer_method"@,
            Json::Str("local_file"@),
        ).insert("upload_file_id"@, Json::Str(id)),
    )
}

/// A chat message without images.
pub open spec fn plain_chat(
    time: Seq<char>,
    query: Seq<char>,
    conversation: Seq<char>,
    user: Seq<char>,
) -> Map<Seq<char>, Json> {
    Map::empty().insert("inputs"@, json::object1("current_time"@, Json::Str(time))).insert(
        "query"@,
        Json::Str(query),
    ).insert("response_mode"@, Json::Str("streaming"@)).insert(
        "conversation_id"@,
        Json::Str(conversation),
    ).insert("user"@, Json::Str(user))
}

/// A chat message. It names its images only where it has some.
pub open spec fn chat_json(
    time: Seq<char>,
    query: Seq<char>,
    conversation: Seq<char>,
    user: Seq<char>,
    files: Seq<Seq<char>>,
) -> Json {
    let plain = plain_chat(time, query, conversation, user);
    if files.len() == 0 {
        Json::Object(plain)
    } else {
        Json::Object(
            plain.insert("files"@, Json::Array(files.map_values(|id: Seq<char>| file_json(id)))),
        )
    }
}

fn file_value(id: &str) -> (r: serde_json::Value)
    ensures
        json::json_of(r) == file_json(id@),
{
    let mut v = json_null();
    json_set_text(&mut v, "type", "image");
    json_set_text(&mut v, "transfer_method", "local_file");
    json_set_text(&mut v, "upload_file_id", id);
    v
}

/// The request that asks the model.
pub fn chat_request(
    base: &str,
    key: &str,
    now: &LocalTime,
    query: &str,
    conversation: &str,
    user: &str,
    files: &Vec<String>,
) -> (r: DifyRequest)
    requires
        now.valid(),
    ensures
        r.url@ == base@ + "/v1/chat-messages"@,
        r.authorization@ == "Bearer "@ + key@,
        json::json_of(r.body) == chat_json(
            clock::formatted(*now, "%Y年%m月%d日 %H:%M"@),
            query@,
            conversation@,
            user@,
            text::texts(files@),
        ),
{
    let mut inputs = json_null();
    json_set_text(&mut inputs, "current_time", chat_time(now).as_str());
    let mut body = json_null();
    json_set(&mut body, "inputs", inputs);
    json_set_text(&mut body, "query", query);
    json_set_text(&mut body, "response_mode", "streaming");
    json_set_text(&mut body, "conversation_id", conversation);
    json_set_text(&mut body, "user", user);
    if files.len() > 0 {
        let mut items: Vec<serde_json::Value> = Vec::new();
        let mut i: usize = 0;
        while i < files.len()
            invariant
                i <= files@.len(),
                json::jsons_of(items@) =~= text::texts(files@).take(i as int).map_values(
                    |id: Seq<char>| file_json(id),
                ),
            decreases files@.len() - i,
        {
            let ghost f = |id: Seq<char>| file_json(id);
            let ghost ids = text::texts(files@);
            let ghost so_far = items@;
            items.push(file_value(files[i].as_str()));
            assert(ids.take(i + 1) =~= ids.take(i as int).push(ids[i as int]));
            assert(json::jsons_of(items@) =~= json::jsons_of(so_far).push(file_json(ids[i as int])));
            assert(ids.take(i + 1).map_values(f) =~= ids.take(i as int).map_values(f).push(
                file_json(ids[i as int]),
            ));
            i += 1;
        }
        assert(text::texts(files@).take(i as int) =~= text::texts(files@));
        json_set(&mut body, "files", json_array(items));
    }
    DifyRequest { url: chat_url(base), authorization: bearer(key), body }
}

/// What a body says about the identifier of what was made.
pub enum IdRead {
    /// The body is no JSON document.
    NotJson,
    /// The document has no such identifier that is a text.
    NoId,
    Id(String),
}

/// Whether `r` is what a document, or the lack of one, says of an identifier.
pub open spec fn reads_id(r: IdRead, body: Option<Json>, id: spec_fn(Json) -> Json) -> bool {
    match body {
        None => r is NotJson,
        Some(doc) => match id(doc).text() {
            None => r is NoId,
            Some(s) => r matches IdRead::Id(t) && t@ == s,
        },
    }
}

/// Reads the member `id` of a body.
pub fn read_id(bytes: &[u8]) -> (r: IdRead)
    ensures
        reads_id(r, json::json_parsed_bytes(bytes@), |doc: Json| doc.member("id"@)),
{
    match parse_json_bytes(bytes) {
        Err(_) => IdRead::NotJson,
        Ok(doc) => match member_text(&doc, "id") {
            None => IdRead::NoId,
            Some(id) => IdRead::Id(id),
        },
    }
}

/// Reads the member `id` of the member `document` of a body.
pub fn read_document_id(bytes: &[u8]) -> (r: IdRead)
    ensures
        reads_id(
            r,
            json::json_parsed_bytes(bytes@),
            |doc: Json| doc.member("document"@).member("id"@),
        ),
{
    match parse_json_bytes(bytes) {
        Err(_) => IdRead::NotJson,
        Ok(doc) => match member_text(json_member(&doc, "document"), "id") {
            None => IdRead::NoId,
            Some(id) => IdRead::Id(id),
        },
    }
}

/// The text of a failure with the status and body of a reply.
pub open spec fn refusal(what: Seq<char>, status: Seq<char>, body: Seq<char>) -> Seq<char> {
    what + status + " / "@ + body
}

pub(crate) fn refusal_text(what: &str, status: &str, body: &str) -> (r: String)
    ensures
        r@ == refusal(what@, status@, body@),
{
    let mut s = String::from_str(what);
    s.append(status);
    s.append(" / ");
    s.append(body);
    s
}

/// What the upload of an image gave.
pub enum Upload {
    Done(String),
    /// It failed, with this text.
    Failed(String),
    /// The reply was no JSON document.
    NotJson,
}

/// What an upload gave, by what was read from the reply.
pub fn upload_of(read: IdRead) -> (r: Upload)
    ensures
        match read {
            IdRead::NotJson => r is NotJson,
            IdRead::NoId => r matches Upload::Failed(e) && e@
                == "upload_file_idが取得できなかった"@,
            IdRead::Id(id) => r == Upload::Done(id),
        },
{
    match read {
        IdRead::NotJson => Upload::NotJson,
        IdRead::NoId => Upload::Failed(
            String::from_str("upload_file_idが取得できなかった"),
        ),
        IdRead::Id(id) => Upload::Done(id),
    }
}

/// What an upload gave; `failure` opens the text for a reply whose status is no success.
pub fn upload_result(reply: Reply, failure: &str) -> (r: Upload)
    ensures
        match reply {
            Reply::Unreachable(why) => r == Upload::Failed(why),
            Reply::Refused { status, body } => r matches Upload::Failed(e) && e@ == refusal(
                failure@,
                status@,
                body@,
            ),
            Reply::Accepted(bytes) => match json::json_parsed_bytes(bytes@) {
                None => r is NotJson,
                Some(doc) => match doc.member("id"@).text() {
                    None => r matches Upload::Failed(e) && e@
                        == "upload_file_idが取得できなかった"@,
                    Some(id) => r matches Upload::Done(s) && s@ == id,
                },
            },
        },
{
    match reply {
        Reply::Unreachable(why) => Upload::Failed(why),
        Reply::Refused { status, body } => Upload::Failed(
            refusal_text(failure, status.as_str(), body.as_str()),
        ),
        Reply::Accepted(bytes) => upload_of(read_id(bytes.as_slice())),
    }
}

/// What a chat message says: the time, the question, that the answer is streamed, the
/// conversation and the user, and nothing more; with images also each of them by its name, as
/// an image that was uploaded before, in their order.
pub proof fn law_chat_message(
    time: Seq<char>,
    query: Seq<char>,
    conversation: Seq<char>,
    user: Seq<char>,
    files: Seq<Seq<char>>,
)
    ensures
        ({
            let j = chat_json(time, query, conversation, user, files);
            let keys = set![
                "inputs"@,
                "query"@,
                "response_mode"@,
                "conversation_id"@,
                "user"@,
            ];
            &&& j is Object
            &&& j.members().dom() == if files.len() == 0 {
                keys
            } else {
                keys.insert("files"@)
            }
            &&& j.member("inputs"@) == Json::Object(map!["current_time"@ => Json::Str(time)])
            &&& j.member("query"@) == Json::Str(query)
            &&& j.member("response_mode"@) == Json::Str("streaming"@)
            &&& j.member("conversation_id"@) == Json::Str(conversation)
            &&& j.member("user"@) == Json::Str(user)
            &&& files.len() > 0 ==> {
                &&& j.member("files"@) is Array
                &&& j.member("files"@)->Array_0.len() == files.len()
                &&& forall|i: int|
                    0 <= i < files.len() ==> #[trigger] j.member("files"@)->Array_0[i]
                        == Json::Object(
                        map![
                            "type"@ => Json::Str("image"@),
                            "transfer_method"@ => Json::Str("local_file"@),
                            "upload_file_id"@ => Json::Str(files[i]),
                        ],
                    )
            }
        }),
{
    reveal_strlit("inputs");
    reveal_strlit("query");
    reveal_strlit("response_mode");
    reveal_strlit("conversation_id");
    reveal_strlit("user");
    reveal_strlit("files");
    reveal_strlit("type");
    reveal_strlit("transfer_method");
    reveal_strlit("upload_file_id");
    assert("inputs"@.len() == 6 && "query"@.len() == 5 && "response_mode"@.len() == 13);
    assert("conversation_id"@.len() == 15 && "user"@.len() == 4 && "files"@.len() == 5);
    assert("query"@[0] == 'q' && "files"@[0] == 'f');
    assert("type"@.len() == 4 && "transfer_method"@.len() == 15 && "upload_file_id"@.len() == 14);
    let j = chat_json(time, query, conversation, user, files);
    let keys = set!["inputs"@, "query"@, "response_mode"@, "conversation_id"@, "user"@];
    if files.len() == 0 {
        assert(j.members().dom() =~= keys);
    } else {
        assert(j.members().dom() =~= keys.insert("files"@));
    }
    assert(json::object1("current_time"@, Json::Str(time))->Object_0 =~= map![
        "current_time"@ => Json::Str(time),
    ]);
    assert forall|i: int| 0 <= i < files.len() implies #[trigger] j.member("files"@)->Array_0[i]
        == Json::Object(
        map![
            "type"@ => Json::Str("image"@),
            "transfer_method"@ => Json::Str("local_file"@),
            "upload_file_id"@ => Json::Str(files[i]),
        ],
    ) by {
        assert(file_json(files[i])->Object_0 =~= map![
            "type"@ => Json::Str("image"@),
            "transfer_method"@ => Json::Str("local_file"@),
            "upload_file_id"@ => Json::Str(files[i]),
        ]);
    }
}

/// What is said of a reply whose status is no success, and where the service is if nothing is
/// set.
pub proof fn law_refusal(what: Seq<char>, status: Seq<char>, body: Seq<char>)
    ensures
        refusal(what, status, body) == what + status + " / "@ + body,
        default_base_url() == "http://127.0.0.1"@,
{
}

/// What is read of an identifier: it, where there is a document that has it as a text, and
/// otherwise which of the two is missing.
pub proof fn law_identifier_is_read(r: IdRead, doc: Json, id: spec_fn(Json) -> Json)
    ensures
        reads_id(r, None, id) <==> r is NotJson,
        id(doc).text() is None ==> (reads_id(r, Some(doc), id) <==> r is NoId),
        id(doc).text() is Some ==> (reads_id(r, Some(doc), id) <==> (r is Id && r->Id_0@ == id(
            doc,
        ).text()->0)),
{
}

}
