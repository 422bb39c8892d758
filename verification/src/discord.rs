//! A message in Discord: what is done about it, and what is answered.

use vstd::prelude::*;
use vstd::string::StringExecFns;

use crate::chat;
use crate::chat::conversation_to_keep;
use crate::chat::Command;
use crate::chat::Outcome;
use crate::chat::Remembered;
use crate::clock;
use crate::clock::LocalTime;
use crate::dify;
use crate::dify::chat_request;
use crate::dify::DifyRequest;
use crate::dify_stream;
use crate::dify_stream::text_from_utf8_lossy;
use crate::image_name;
use crate::image_name::resolve_image_type;
use crate::json;
use crate::memory_log;
use crate::number;
use crate::number::decimal_text;
use crate::reply;
use crate::reply::split_message;
use crate::reply::strip_think_tags;
use crate::text;
use crate::text::same_text;
use crate::text::trim_text;

verus! {

/// Characters that a message has at most.
pub const MESSAGE_LIMIT: usize = 1900;

/// The type that an attachment is handed on as.
pub const ATTACHMENT_MIME: &'static str = "image/jpeg";

/// What is said in front of the reply where an attachment could not be handed on.
pub const ATTACHMENT_FAILURE: &'static str = "Difyファイルアップロード失敗: ";

/// What the answering of messages goes by.
pub struct Handler {
    pub vision_enabled: bool,
    pub memory_log_path: String,
    pub image_save_dir: String,
    pub admin_user_ids: Vec<String>,
}

/// A file that came with a message.
pub struct Attachment {
    pub url: String,
    pub filename: String,
    pub content_type: Option<String>,
}

/// A message that came in.
pub struct Incoming {
    pub author_is_bot: bool,
    pub author_id: u64,
    pub channel_id: u64,
    pub content: String,
    pub attachments: Vec<Attachment>,
}

/// What is done first about a message.
pub enum Opening {
    /// Nothing.
    Ignore,
    /// This is answered, and that is all.
    Refuse(String),
    /// This is answered, and the model's server is restarted.
    Restart(String),
    /// The model is asked.
    Ask(Turn),
}

/// A question to the model, while it is put together.
pub struct Turn {
    /// Who asks.
    pub user: String,
    /// What the conversation is kept under.
    pub key: String,
    pub query: String,
    /// The attachments that are handed on, by their places in the message.
    pub images: Vec<usize>,
    /// The names of the attachments that were handed on.
    pub files: Vec<String>,
}

/// Whether a message is the command to restart the model's server.
pub open spec fn is_restart(msg: Incoming) -> bool {
    text::trim(msg.content@) == "!ollama-restart"@
}

/// Whether an author is one of the administrators.
pub open spec fn is_admin(handler: Handler, author: u64) -> bool {
    text::texts(handler.admin_user_ids@).contains(number::decimal(author as nat))
}

/// The content type of an attachment; none counts as an empty one.
pub open spec fn content_type_of(a: Attachment) -> Seq<char> {
    match a.content_type {
        Some(ct) => ct@,
        None => Seq::<char>::empty(),
    }
}

/// Whether an attachment is an image of a type that is handed on.
pub open spec fn is_image(a: Attachment) -> bool {
    image_name::image_type(
        image_name::lowercased(content_type_of(a)),
        image_name::lowercased(a.filename@),
    ) is Some
}

/// The places of the images among the first `n` attachments.
pub open spec fn image_places(attachments: Seq<Attachment>, n: nat) -> Seq<usize>
    decreases n,
{
    if n == 0 {
        seq![]
    } else {
        let before = image_places(attachments, (n - 1) as nat);
        if is_image(attachments[n - 1]) {
            before.push((n - 1) as usize)
        } else {
            before
        }
    }
}

/// What the model is asked: the message, or that an image was sent where it is empty.
pub open spec fn query_of(msg: Incoming) -> Seq<char> {
    if msg.content@.len() == 0 && msg.attachments@.len() > 0 {
        "（画像を送ったよ）"@
    } else {
        msg.content@
    }
}

/// What the conversation of a user in a channel is kept under.
pub open spec fn conversation_key(author: u64, channel: u64) -> Seq<char> {
    number::decimal(author as nat) + "_"@ + number::decimal(channel as nat)
}

/// Whether a question begins as a message asks for it.
pub open spec fn begins(turn: Turn, handler: Handler, msg: Incoming) -> bool {
    &&& turn.user@ == number::decimal(msg.author_id as nat)
    &&& turn.key@ == conversation_key(msg.author_id, msg.channel_id)
    &&& turn.query@ == query_of(msg)
    &&& turn.images@ == if handler.vision_enabled {
        image_places(msg.attachments@, msg.attachments@.len())
    } else {
        Seq::<usize>::empty()
    }
    &&& turn.files@ == Seq::<String>::empty()
}

fn has_id(ids: &Vec<String>, id: &str) -> (r: bool)
    ensures
        r == text::texts(ids@).contains(id@),
{
    let ghost all = text::texts(ids@);
    let mut i: usize = 0;
    while i < ids.len()
        invariant
            i <= ids@.len(),
            all == text::texts(ids@),
            forall|k: int| 0 <= k < i ==> all[k] != id@,
        decreases ids@.len() - i,
    {
        if same_text(ids[i].as_str(), id) {
            assert(all[i as int] == id@);
            return true;
        }
        i += 1;
    }
    false
}

fn is_image_file(a: &Attachment) -> (r: bool)
    ensures
        r == is_image(*a),
{
    match &a.content_type {
        Some(ct) => resolve_image_type(ct.as_str(), a.filename.as_str()).is_some(),
        None => {
            let none = String::new();
            resolve_image_type(none.as_str(), a.filename.as_str()).is_some()
        },
    }
}

fn image_places_of(attachments: &Vec<Attachment>) -> (r: Vec<usize>)
    ensures
        r@ == image_places(attachments@, attachments@.len()),
{
    let mut r: Vec<usize> = Vec::new();
    let mut i: usize = 0;
    while i < attachments.len()
        invariant
            i <= attachments@.len(),
            r@ == image_places(attachments@, i as nat),
        decreases attachments@.len() - i,
    {
        if is_image_file(&attachments[i]) {
            r.push(i);
        }
        i += 1;
    }
    r
}

impl Handler {
    /// What is done first about a message. A bot's is ignored; the command to restart the
    /// model's server is for administrators; anything else goes to the model.
    pub fn message(&self, msg: &Incoming) -> (r: Opening)
        ensures
            if msg.author_is_bot {
                r is Ignore
            } else if is_restart(*msg) {
                if is_admin(*self, msg.author_id) {
                    r matches Opening::Restart(s) && s@
                        == "Ollamaを再起動するよ〜、少し待ってね！"@
                } else {
                    r matches Opening::Refuse(s) && s@
                        == "ごめんね、このコマンドは管理者しか使えないよ〜。"@
                }
            } else {
                r matches Opening::Ask(turn) && begins(turn, *self, *msg)
            },
    {
        if msg.author_is_bot {
            return Opening::Ignore;
        }
        let user = decimal_text(msg.author_id);
        if same_text(trim_text(msg.content.as_str()).as_str(), "!ollama-restart") {
            if !has_id(&self.admin_user_ids, user.as_str()) {
                return Opening::Refuse(
                    String::from_str("ごめんね、このコマンドは管理者しか使えないよ〜。"),
                );
            }
            return Opening::Restart(
                String::from_str("Ollamaを再起動するよ〜、少し待ってね！"),
            );
        }
        let mut key = String::from_str(user.as_str());
        key.append("_");
        key.append(decimal_text(msg.channel_id).as_str());
        let images = if self.vision_enabled {
            image_places_of(&msg.attachments)
        } else {
            Vec::new()
        };
        let query = if msg.content.as_str().is_empty() && msg.attachments.len() > 0 {
            String::from_str("（画像を送ったよ）")
        } else {
            String::from_str(msg.content.as_str())
        };
        Opening::Ask(Turn { user, key, query, images, files: Vec::new() })
    }
}

/// How the model's server is restarted.
pub fn restart_command() -> (r: Command)
    ensures
        r.program@ == "systemctl"@,
        text::texts(r.args@) == seq!["restart"@, "ollama"@],
{
    let mut args: Vec<String> = Vec::new();
    args.push(String::from_str("restart"));
    args.push(String::from_str("ollama"));
    assert(text::texts(args@) =~= seq!["restart"@, "ollama"@]);
    Command { program: String::from_str("systemctl"), args }
}

/// How the restart of the model's server ended.
pub enum Restarted {
    Done,
    /// The command failed and wrote this.
    Failed(Vec<u8>),
    /// The command could not be run.
    NotRun,
}

/// What is answered after a restart.
pub fn restart_reply(outcome: &Restarted) -> (r: String)
    ensures
        r@ == match *outcome {
            Restarted::Done => "Ollamaの再起動が完了したよ〜！"@,
            Restarted::Failed(stderr) => "再起動に失敗しちゃったみたい〜。\n```\n"@
                + dify_stream::utf8_lossy(stderr@) + "\n```"@,
            Restarted::NotRun => "systemctlの実行自体に失敗しちゃったよ〜。"@,
        },
        outcome matches Restarted::Failed(stderr) ==> dify_stream::reads_utf8(stderr@),
{
    match outcome {
        Restarted::Done => String::from_str("Ollamaの再起動が完了したよ〜！"),
        Restarted::Failed(stderr) => {
            let mut s = String::from_str("再起動に失敗しちゃったみたい〜。\n```\n");
            s.append(text_from_utf8_lossy(stderr.as_slice()).as_str());
            s.append("\n```");
            s
        },
        Restarted::NotRun => String::from_str("systemctlの実行自体に失敗しちゃったよ〜。"),
    }
}

/// What is done once the model was asked.
pub struct Finish {
    /// The conversation that is kept under the key of the question.
    pub keep: Option<String>,
    /// The messages that are sent, one after the other.
    pub say: Vec<String>,
    pub remember: Option<Remembered>,
}

pub open spec fn no_answer_text() -> Seq<char> {
    "ごめんね、うまく返事が受け取れなかったみたい〜。"@
}

/// What is shown of an answer: no thoughts.
pub open spec fn shown(answer: Seq<char>) -> Seq<char> {
    text::trim(reply::without_think(answer))
}

/// The messages that are sent for an outcome.
pub open spec fn said(outcome: Outcome) -> Seq<Seq<char>> {
    match outcome {
        Outcome::Unreachable(_) => seq![
            "ごめんね、今ちょっと頭が回らなくてお返事できないみたい〜。"@,
        ],
        Outcome::Refused(status) => seq![
            "ごめんね、ヤッチョのサーバー側でエラーが出ちゃったみたい〜。（"@ + status@ + "）"@,
        ],
        Outcome::Broken(_) => seq!["ごめんね、返事の受け取りに失敗しちゃったみたい〜。"@],
        Outcome::Answered(result) => if shown(result.answer@).len() == 0 {
            seq![no_answer_text()]
        } else {
            reply::messages(shown(result.answer@), MESSAGE_LIMIT as int)
        },
    }
}

/// What is remembered of an outcome: the question, and the whole answer with its thoughts,
/// where some of it was shown.
pub open spec fn remembered(query: Seq<char>, outcome: Outcome) -> Option<(Seq<char>, Seq<char>)> {
    match outcome {
        Outcome::Answered(result) => if shown(result.answer@).len() > 0 {
            Some((query, result.answer@))
        } else {
            None
        },
        _ => None,
    }
}

fn one(s: String) -> (r: Vec<String>)
    ensures
        text::texts(r@) == seq![s@],
{
    let mut v: Vec<String> = Vec::new();
    v.push(s);
    assert(text::texts(v@) =~= seq![s@]);
    v
}

impl Turn {
    /// An attachment was handed on, and has this name now.
    pub fn uploaded(&mut self, id: String)
        ensures
            text::texts(final(self).files@) == text::texts(old(self).files@).push(id@),
            final(self).user == old(self).user,
            final(self).key == old(self).key,
            final(self).query == old(self).query,
            final(self).images == old(self).images,
    {
        let ghost before = text::texts(self.files@);
        self.files.push(id);
        assert(text::texts(self.files@) =~= before.push(id@));
    }

    /// The request that asks the model.
    pub fn request(&self, base: &str, key: &str, now: &LocalTime, conversation: &str) -> (r:
        DifyRequest)
        requires
            now.valid(),
        ensures
            r.url@ == base@ + "/v1/chat-messages"@,
            r.authorization@ == "Bearer "@ + key@,
            json::json_of(r.body) == dify::chat_json(
                clock::formatted(*now, "%Y年%m月%d日 %H:%M"@),
                self.query@,
                conversation@,
                self.user@,
                text::texts(self.files@),
            ),
    {
        chat_request(
            base,
            key,
            now,
            self.query.as_str(),
            conversation,
            self.user.as_str(),
            &self.files,
        )
    }

    /// What is done once the model was asked.
    pub fn finish(&self, outcome: &Outcome) -> (r: Finish)
        ensures
            text::opt_text(r.keep) == chat::kept_conversation(*outcome),
            text::texts(r.say@) == said(*outcome),
            chat::remembers(r.remember, remembered(self.query@, *outcome)),
    {
        let result = match outcome {
            Outcome::Unreachable(_) => {
                return Finish {
                    keep: None,
                    say: one(
                        String::from_str(
                            "ごめんね、今ちょっと頭が回らなくてお返事できないみたい〜。",
                        ),
                    ),
                    remember: None,
                };
            },
            Outcome::Refused(status) => {
                let mut s = String::from_str(
                    "ごめんね、ヤッチョのサーバー側でエラーが出ちゃったみたい〜。（",
                );
                s.append(status.as_str());
                s.append("）");
                return Finish { keep: None, say: one(s), remember: None };
            },
            Outcome::Broken(_) => {
                return Finish {
                    keep: None,
                    say: one(
                        String::from_str("ごめんね、返事の受け取りに失敗しちゃったみたい〜。"),
                    ),
                    remember: None,
                };
            },
            Outcome::Answered(result) => result,
        };
        let keep = conversation_to_keep(result);
        let display_answer = strip_think_tags(result.answer.as_str());
        if display_answer.as_str().is_empty() {
            return Finish {
                keep,
                say: one(
                    String::from_str("ごめんね、うまく返事が受け取れなかったみたい〜。"),
                ),
                remember: None,
            };
        }
        Finish {
            keep,
            say: split_message(display_answer.as_str(), MESSAGE_LIMIT),
            remember: Some(
                Remembered {
                    user_input: String::from_str(self.query.as_str()),
                    bot_reply: String::from_str(result.answer.as_str()),
                },
            ),
        }
    }
}

/// Every user has a conversation of their own in every channel.
pub proof fn law_conversation_keys_differ(
    author_a: u64,
    channel_a: u64,
    author_b: u64,
    channel_b: u64,
)
    requires
        conversation_key(author_a, channel_a) == conversation_key(author_b, channel_b),
    ensures
        author_a == author_b,
        channel_a == channel_b,
{
    reveal_strlit("_");
    let key = conversation_key(author_a, channel_a);
    let a = number::decimal(author_a as nat);
    let b = number::decimal(author_b as nat);
    lemma_key_parts(author_a, channel_a);
    lemma_key_parts(author_b, channel_b);
    assert(a.len() == b.len());
    assert(key.take(a.len() as int) =~= a);
    assert(key.take(a.len() as int) =~= b);
    assert(key.skip(a.len() + 1int) =~= number::decimal(channel_a as nat));
    assert(key.skip(a.len() + 1int) =~= number::decimal(channel_b as nat));
    number::lemma_decimal_value(author_a as nat);
    number::lemma_decimal_value(author_b as nat);
    number::lemma_decimal_value(channel_a as nat);
    number::lemma_decimal_value(channel_b as nat);
}

/// Two questions go on with the same conversation just where the same user asks in the same
/// channel.
pub proof fn law_questions_share_a_conversation(
    handler: Handler,
    msg_a: Incoming,
    turn_a: Turn,
    msg_b: Incoming,
    turn_b: Turn,
)
    requires
        begins(turn_a, handler, msg_a),
        begins(turn_b, handler, msg_b),
    ensures
        turn_a.key@ == turn_b.key@ <==> msg_a.author_id == msg_b.author_id && msg_a.channel_id
            == msg_b.channel_id,
{
    if turn_a.key@ == turn_b.key@ {
        law_conversation_keys_differ(
            msg_a.author_id,
            msg_a.channel_id,
            msg_b.author_id,
            msg_b.channel_id,
        );
    }
}

/// The first underscore of a key stands behind the number of the user.
proof fn lemma_key_parts(author: u64, channel: u64)
    ensures
        text::find_char(conversation_key(author, channel), '_') == Some(
            number::decimal(author as nat).len() as int,
        ),
{
    reveal_strlit("_");
    let a = number::decimal(author as nat);
    let key = conversation_key(author, channel);
    number::lemma_decimal_digits(author as nat);
    assert forall|j: int| 0 <= j < a.len() implies key[j] != '_' by {
        assert(key[j] == a[j]);
        assert(number::is_digit(a[j]));
    }
    text::lemma_find_char_is(key, '_', a.len() as int);
}

/// No conversation in a text channel is the one of the web, or one in a voice channel.
pub proof fn law_text_conversations_are_apart(author: u64, channel: u64, label: Seq<char>)
    ensures
        conversation_key(author, channel) != "web_web"@,
        conversation_key(author, channel) != "voice_"@ + label,
{
    reveal_strlit("web_web");
    reveal_strlit("voice_");
    number::lemma_decimal_digits(author as nat);
    let key = conversation_key(author, channel);
    assert(key[0] == number::decimal(author as nat)[0]);
    assert(number::is_digit(key[0]));
    assert(("voice_"@ + label)[0] == 'v');
}

/// No message that is sent has more than the characters that it may have. A status of the
/// service that would make it longer is left out.
pub proof fn law_said_messages_fit(outcome: Outcome)
    requires
        outcome is Refused ==> said(outcome)[0].len() <= MESSAGE_LIMIT,
    ensures
        forall|k: int|
            0 <= k < said(outcome).len() ==> (#[trigger] said(outcome)[k]).len() <= MESSAGE_LIMIT,
{
    reveal_strlit("ごめんね、今ちょっと頭が回らなくてお返事できないみたい〜。");
    reveal_strlit("ごめんね、ヤッチョのサーバー側でエラーが出ちゃったみたい〜。（");
    reveal_strlit("）");
    reveal_strlit("ごめんね、返事の受け取りに失敗しちゃったみたい〜。");
    reveal_strlit("ごめんね、うまく返事が受け取れなかったみたい〜。");
    match outcome {
        Outcome::Answered(result) => {
            let s = shown(result.answer@);
            if s.len() > 0 {
                text::lemma_trim(reply::without_think(result.answer@));
                assert(s[s.len() - 1] != '\n');
                reply::law_messages_fit(s, MESSAGE_LIMIT as int);
            }
        },
        _ => {},
    }
}

/// All of what is shown of an answer is sent: the messages, one behind the other, hold its
/// characters in their order, but for line feeds.
pub proof fn law_shown_answer_is_sent(outcome: Outcome)
    ensures
        outcome matches Outcome::Answered(result) ==> shown(result.answer@).len() > 0
            ==> reply::without_line_feeds(reply::glue(said(outcome)))
            == reply::without_line_feeds(shown(result.answer@)),
{
    match outcome {
        Outcome::Answered(result) => {
            reply::law_messages_keep_the_text(shown(result.answer@), MESSAGE_LIMIT as int);
        },
        _ => {},
    }
}

/// The thoughts of an answer are not shown, but remembered with the rest of it.
pub proof fn law_thoughts_are_hidden_but_remembered(
    query: Seq<char>,
    outcome: Outcome,
    before: Seq<char>,
    thoughts: Seq<char>,
    after: Seq<char>,
)
    requires
        outcome is Answered,
        outcome->Answered_0.answer@ == before + "<think>"@ + thoughts + "</think>"@ + after,
        !text::has_text(before, "<think>"@),
        !text::has_text(thoughts, "</think>"@),
    ensures
        shown(outcome->Answered_0.answer@) == text::trim(before + reply::without_think(after)),
        shown(outcome->Answered_0.answer@).len() > 0 ==> remembered(query, outcome) == Some(
            (query, before + "<think>"@ + thoughts + "</think>"@ + after),
        ),
{
    reply::law_think_block_removed(before, thoughts, after);
}

/// Where no administrators are set, nobody can restart the model's server.
pub proof fn law_without_admins_no_restart(handler: Handler, author: u64)
    requires
        handler.admin_user_ids@.len() == 0,
    ensures
        !is_admin(handler, author),
{
}

/// What was said in a channel is read back from the log as it was said. A message of several
/// lines or one that looks like the tag of an image, and an answer with lines that open
/// something else in the log, are left out.
pub proof fn law_exchange_is_read_back(
    log: Seq<char>,
    at: LocalTime,
    query: Seq<char>,
    outcome: Outcome,
)
    requires
        remembered(query, outcome) is Some,
        memory_log::is_loggable_answer(outcome->Answered_0.answer@),
        memory_log::is_loggable_message(query),
        match text::after_prefix(query, "[画像: "@) {
            Some(rest) => !rest.contains(']'),
            None => true,
        },
    ensures
        ({
            let (user, bot) = remembered(query, outcome)->0;
            let time = clock::formatted(at, "%Y-%m-%d %H:%M:%S"@);
            memory_log::log_entries(log + memory_log::entry_text(time, user, bot)).last() == (
            memory_log::Entry {
                time,
                images: seq![],
                user: query,
                bot: outcome->Answered_0.answer@,
            })
        }),
{
    memory_log::law_appended_entry_is_read_back(log, at, query, outcome->Answered_0.answer@);
    memory_log::law_plain_message_is_read_back(query);
}

/// What a question is made of. The command to restart is told by its text, white space aside;
/// an administrator by their number. The user is their number, the conversation is kept under
/// the numbers of user and channel, and the question is the message, or says that an image was
/// sent where the message is empty and something is attached.
pub proof fn law_question(handler: Handler, msg: Incoming, turn: Turn)
    ensures
        is_restart(msg) <==> text::trim(msg.content@) == "!ollama-restart"@,
        is_admin(handler, msg.author_id) <==> exists|i: int|
            0 <= i < handler.admin_user_ids@.len() && (#[trigger] handler.admin_user_ids@[i])@
                == number::decimal(msg.author_id as nat),
        begins(turn, handler, msg) ==> {
            &&& turn.user@ == number::decimal(msg.author_id as nat)
            &&& turn.key@ == number::decimal(msg.author_id as nat) + "_"@ + number::decimal(
                msg.channel_id as nat,
            )
            &&& msg.content@.len() > 0 || msg.attachments@.len() == 0 ==> turn.query@
                == msg.content@
            &&& msg.content@.len() == 0 && msg.attachments@.len() > 0 ==> turn.query@
                == "（画像を送ったよ）"@
            &&& turn.files@.len() == 0
            &&& !handler.vision_enabled ==> turn.images@.len() == 0
        },
{
    let ids = text::texts(handler.admin_user_ids@);
    let id = number::decimal(msg.author_id as nat);
    if ids.contains(id) {
        let i = choose|i: int| 0 <= i < ids.len() && ids[i] == id;
        assert(handler.admin_user_ids@[i]@ == id);
    }
    if exists|i: int|
        0 <= i < handler.admin_user_ids@.len() && (#[trigger] handler.admin_user_ids@[i])@ == id {
        let i = choose|i: int|
            0 <= i < handler.admin_user_ids@.len() && (#[trigger] handler.admin_user_ids@[i])@
                == id;
        assert(ids[i] == id);
    }
}

/// Where the model can see, every attachment that is an image is handed on, once and in its
/// order, and no other is.
pub proof fn law_images_that_are_handed_on(handler: Handler, msg: Incoming, turn: Turn)
    requires
        begins(turn, handler, msg),
        handler.vision_enabled,
        msg.attachments@.len() <= usize::MAX,
    ensures
        forall|i: int, j: int|
            0 <= i < j < turn.images@.len() ==> (#[trigger] turn.images@[i]) < (
            #[trigger] turn.images@[j]),
        forall|k: usize|
            #![trigger turn.images@.contains(k)]
            turn.images@.contains(k) <==> k < msg.attachments@.len() && ({
                let a = msg.attachments@[k as int];
                let ct = image_name::lowercased(
                    match a.content_type {
                        Some(ct) => ct@,
                        None => Seq::<char>::empty(),
                    },
                );
                let name = image_name::lowercased(a.filename@);
                ||| text::has_text(ct, "jpeg"@) || text::has_text(ct, "jpg"@)
                ||| text::has_suffix(name, ".jpg"@) || text::has_suffix(name, ".jpeg"@)
                ||| text::has_text(ct, "png"@) || text::has_suffix(name, ".png"@)
                ||| text::has_text(ct, "webp"@) || text::has_suffix(name, ".webp"@)
            }),
{
    lemma_image_places(msg.attachments@, msg.attachments@.len());
}

proof fn lemma_image_places(attachments: Seq<Attachment>, n: nat)
    requires
        n <= attachments.len() <= usize::MAX,
    ensures
        ({
            let p = image_places(attachments, n);
            &&& forall|i: int, j: int|
                0 <= i < j < p.len() ==> (#[trigger] p[i]) < (#[trigger] p[j])
            &&& forall|k: usize|
                #![trigger p.contains(k)]
                p.contains(k) <==> k < n && is_image(attachments[k as int])
        }),
    decreases n,
{
    let p = image_places(attachments, n);
    if n > 0 {
        let m = (n - 1) as nat;
        let before = image_places(attachments, m);
        lemma_image_places(attachments, m);
        assert forall|i: int| 0 <= i < before.len() implies (#[trigger] before[i]) < m by {
            assert(before.contains(before[i]));
        }
        assert forall|k: usize| #![trigger p.contains(k)]
            p.contains(k) <==> k < n && is_image(attachments[k as int]) by {
            if is_image(attachments[n - 1]) {
                assert(p[before.len() as int] == m);
                if p.contains(k) {
                    let i = choose|i: int| 0 <= i < p.len() && p[i] == k;
                    if i < before.len() {
                        assert(before.contains(before[i]));
                    }
                }
                if k < m && is_image(attachments[k as int]) {
                    assert(before.contains(k));
                    let i = choose|i: int| 0 <= i < before.len() && before[i] == k;
                    assert(p[i] == k);
                }
                if k == m {
                    assert(p.contains(p[before.len() as int]));
                }
            } else {
                assert(before.contains(k) <==> k < m && is_image(attachments[k as int]));
            }
        }
    }
}

/// What is said for each outcome, and what is remembered. Each failure has its own words, and
/// so has an answer of which nothing can be shown; only an answer that was shown is
/// remembered, whole.
pub proof fn law_what_is_said(query: Seq<char>, outcome: Outcome)
    ensures
        match outcome {
            Outcome::Unreachable(_) => said(outcome) == seq![
                "ごめんね、今ちょっと頭が回らなくてお返事できないみたい〜。"@,
            ] && remembered(query, outcome) is None,
            Outcome::Refused(status) => said(outcome) == seq![
                "ごめんね、ヤッチョのサーバー側でエラーが出ちゃったみたい〜。（"@ + status@ + "）"@,
            ] && remembered(query, outcome) is None,
            Outcome::Broken(_) => said(outcome) == seq![
                "ごめんね、返事の受け取りに失敗しちゃったみたい〜。"@,
            ] && remembered(query, outcome) is None,
            Outcome::Answered(result) => {
                let s = text::trim(reply::without_think(result.answer@));
                &&& shown(result.answer@) == s
                &&& s.len() == 0 ==> said(outcome) == seq![
                    "ごめんね、うまく返事が受け取れなかったみたい〜。"@,
                ] && remembered(query, outcome) is None
                &&& s.len() > 0 ==> said(outcome) == reply::messages(s, 1900) && remembered(
                    query,
                    outcome,
                ) == Some((query, result.answer@))
            },
        },
{
}

/// An answer that leaves room in a message is sent as one message, as it is shown.
pub proof fn law_short_answer_is_sent_as_it_is(outcome: Outcome)
    requires
        outcome is Answered,
        0 < text::trim(reply::without_think(outcome->Answered_0.answer@)).len(),
        vstd::utf8::encode_utf8(
            text::trim(reply::without_think(outcome->Answered_0.answer@)),
        ).len() < 1900,
    ensures
        said(outcome) == seq![text::trim(reply::without_think(outcome->Answered_0.answer@))],
{
    let s = text::trim(reply::without_think(outcome->Answered_0.answer@));
    text::lemma_trim(reply::without_think(outcome->Answered_0.answer@));
    reply::law_text_that_fits_is_one_message(s, 1900);
}

}
