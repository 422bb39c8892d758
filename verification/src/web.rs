//! The web interface: what comes in over the form, and what is done about it.

use vstd::prelude::*;
use vstd::string::StringExecFns;

use crate::chat;
use crate::chat::conversation_to_keep;
use crate::chat::Outcome;
use crate::chat::Remembered;
use crate::clock;
use crate::clock::LocalTime;
use crate::dify;
use crate::dify::chat_request;
use crate::dify::DifyRequest;
use crate::image_name;
use crate::image_name::resolve_image_type;
use crate::image_name::web_image_dir;
use crate::image_name::web_image_name;
use crate::json;
use crate::memory_log;
use crate::memory_log::user_log_message;
use crate::number;
use crate::picture;
use crate::picture::resize_to_webp_1024;
use crate::picture::PictureError;
use crate::text;
use crate::text::contains_text;
use crate::text::finishes_with;
use crate::text::same_text;
use crate::text::trim_text;

verus! {

/// What the web interface goes by.
pub struct WebState {
    pub memory_log_path: String,
    /// Images are kept in its directory `web`.
    pub image_save_dir: String,
    pub vision_enabled: bool,
    /// Who may come in; anyone where this is not set.
    pub auth_user: Option<String>,
    pub auth_pass: Option<String>,
}

/// Where a browser goes after it has sent the form.
pub const AFTER_SEND: &'static str = "/chat";

/// What the conversation over the web is kept under.
pub const WEB_KEY: &'static str = "web_web";

/// Who asks, where the question comes over the web.
pub const WEB_USER: &'static str = "web_user";

/// The type that an image is handed on as.
pub const WEB_IMAGE_MIME: &'static str = "image/webp";

/// What is said in front of the reply where an image could not be handed on.
pub const WEB_IMAGE_FAILURE: &'static str = "Dify画像アップロード失敗: ";

/// What a field of the form is.
#[derive(Clone, Copy, PartialEq, Eq, Structural)]
pub enum FieldKind {
    Message,
    Image,
    Other,
}

/// What a field of the form is, by its name.
pub fn field_kind(name: &str) -> (r: FieldKind)
    ensures
        r == if name@ == "message"@ {
            FieldKind::Message
        } else if name@ == "images"@ {
            FieldKind::Image
        } else {
            FieldKind::Other
        },
{
    if same_text(name, "message") {
        FieldKind::Message
    } else if same_text(name, "images") {
        FieldKind::Image
    } else {
        FieldKind::Other
    }
}

/// Whether an image that was sent is of a type that is taken. One without a name counts as
/// `image.jpg`, and one without a content type as `image/jpeg`.
pub fn takes_image(filename: &Option<String>, content_type: &Option<String>) -> (r: bool)
    ensures
        r == (image_name::image_type(
            image_name::lowercased(text::or_else(*content_type, "image/jpeg"@)),
            image_name::lowercased(text::or_else(*filename, "image.jpg"@)),
        ) is Some),
{
    let name = match filename {
        Some(s) => s.as_str(),
        None => "image.jpg",
    };
    let ct = match content_type {
        Some(s) => s.as_str(),
        None => "image/jpeg",
    };
    resolve_image_type(ct, name).is_some()
}

/// An image that came over the form, as it is kept.
pub struct WebImage {
    pub webp: Vec<u8>,
    pub filename: String,
}

/// The form while it comes in.
pub struct Form {
    pub message: String,
    pub images: Vec<WebImage>,
}

/// What became of an image that was sent.
pub enum ImageTaken {
    Taken,
    /// It was empty, and passed over.
    Empty,
    /// It could not be turned into what is kept, and was passed over.
    Failed(PictureError),
}

/// The files and names of images.
pub open spec fn images_view(images: Seq<WebImage>) -> Seq<(Seq<u8>, Seq<char>)> {
    images.map_values(|i: WebImage| (i.webp@, i.filename@))
}

/// The names of images.
pub open spec fn names_of(images: Seq<WebImage>) -> Seq<Seq<char>> {
    images.map_values(|i: WebImage| i.filename@)
}

/// Whether no two images have the same name.
pub open spec fn names_differ(images: Seq<WebImage>) -> bool {
    forall|i: int, j: int|
        0 <= i < j < images.len() ==> (#[trigger] images[i]).filename@ != (
        #[trigger] images[j]).filename@
}

/// Whether an image that comes at some time gets this name: the first numbered one of that
/// time that none of `names` is.
pub open spec fn is_next_name(names: Seq<Seq<char>>, now: LocalTime, name: Seq<char>) -> bool {
    &&& !names.contains(name)
    &&& exists|n: nat|
        name == #[trigger] image_name::web_name(now, n) && forall|k: nat|
            k < n ==> names.contains(#[trigger] image_name::web_name(now, k))
}

/// Whether `after` is `before` with one more image, of this file and with the next name.
pub open spec fn adds_image(
    before: Seq<WebImage>,
    after: Seq<WebImage>,
    webp: Seq<u8>,
    now: LocalTime,
) -> bool {
    &&& images_view(after) == images_view(before).push((webp, after.last().filename@))
    &&& is_next_name(names_of(before), now, after.last().filename@)
}

/// Some of the first numbered names of a time are free: there is one more of them than there
/// are names.
proof fn lemma_a_name_is_free(names: Seq<Seq<char>>, now: LocalTime, n: nat)
    requires
        now.valid(),
        forall|k: nat| k < n ==> names.contains(#[trigger] image_name::web_name(now, k)),
    ensures
        n <= names.len(),
{
    let taken = Seq::new(n, |k: int| image_name::web_name(now, k as nat));
    assert forall|i: int, j: int|
        0 <= i < taken.len() && 0 <= j < taken.len() && i != j implies taken[i] != taken[j] by {
        image_name::law_web_names_differ(now, i as nat, now, j as nat);
    }
    taken.unique_seq_to_set();
    names.lemma_cardinality_of_set();
    assert forall|name: Seq<char>| taken.to_set().contains(name) implies names.to_set().contains(
        name,
    ) by {
        let k = choose|k: int| 0 <= k < taken.len() && taken[k] == name;
        assert(names.contains(image_name::web_name(now, k as nat)));
    }
    vstd::seq_lib::seq_to_set_is_finite(names);
    vstd::set_lib::lemma_len_subset(taken.to_set(), names.to_set());
}

/// What an image is kept as, or why it is not; nothing where there is no image.
pub fn make_image(raw: &[u8]) -> (r: Option<Result<Vec<u8>, PictureError>>)
    ensures
        match r {
            None => raw@.len() == 0,
            Some(made) => raw@.len() > 0 && match made {
                Ok(webp) => picture::is_webp_of(raw@, webp@),
                Err(PictureError::Unreadable(_)) => picture::pictures_in(raw@) == Set::<
                    picture::Picture,
                >::empty(),
                Err(PictureError::Unwritable(_)) => picture::may_be_empty(raw@),
            },
        },
{
    if raw.len() == 0 {
        return None;
    }
    Some(resize_to_webp_1024(raw))
}

impl Form {
    pub fn new() -> (r: Form)
        ensures
            r.message@ == Seq::<char>::empty(),
            r.images@ == Seq::<WebImage>::empty(),
            names_differ(r.images@),
    {
        Form { message: String::new(), images: Vec::new() }
    }

    /// A message came; of several the last one counts.
    pub fn set_message(&mut self, message: String)
        ensures
            final(self).message == message,
            final(self).images == old(self).images,
    {
        self.message = message;
    }

    /// Whether an image has this name.
    fn has_name(&self, name: &str) -> (r: bool)
        ensures
            r == names_of(self.images@).contains(name@),
    {
        let ghost names = names_of(self.images@);
        let mut i: usize = 0;
        while i < self.images.len()
            invariant
                i <= self.images@.len(),
                names == names_of(self.images@),
                forall|k: int| 0 <= k < i ==> names[k] != name@,
            decreases self.images@.len() - i,
        {
            if same_text(self.images[i].filename.as_str(), name) {
                assert(names[i as int] == name@);
                return true;
            }
            i += 1;
        }
        false
    }

    /// The name that an image gets which comes now.
    fn next_name(&self, now: &LocalTime) -> (r: String)
        requires
            now.valid(),
        ensures
            is_next_name(names_of(self.images@), *now, r@),
    {
        let ghost names = names_of(self.images@);
        let count: usize = self.images.len();
        let mut n: usize = 0;
        loop
            invariant
                now.valid(),
                names == names_of(self.images@),
                count == self.images@.len(),
                n <= count,
                forall|k: nat|
                    k < n ==> names.contains(#[trigger] image_name::web_name(*now, k)),
            decreases count - n,
        {
            let name = web_image_name(now, n);
            if !self.has_name(name.as_str()) {
                return name;
            }
            proof {
                lemma_a_name_is_free(names, *now, (n + 1) as nat);
            }
            n += 1;
        }
    }

    /// An image was turned into what is kept, or was not. It gets a name that no other has.
    pub fn keep_image(&mut self, made: Result<Vec<u8>, PictureError>, now: &LocalTime) -> (r:
        ImageTaken)
        requires
            now.valid(),
        ensures
            final(self).message == old(self).message,
            match made {
                Ok(webp) => r is Taken && adds_image(
                    old(self).images@,
                    final(self).images@,
                    webp@,
                    *now,
                ),
                Err(e) => r == ImageTaken::Failed(e) && final(self).images == old(self).images,
            },
            names_differ(old(self).images@) ==> names_differ(final(self).images@),
    {
        match made {
            Ok(webp) => {
                let ghost before = self.images@;
                let ghost file = webp@;
                let filename = self.next_name(now);
                let ghost name = filename@;
                self.images.push(WebImage { webp, filename });
                assert(images_view(self.images@) =~= images_view(before).push((file, name)));
                proof {
                    let names = names_of(before);
                    assert forall|i: int, j: int|
                        0 <= i < j < self.images@.len() && names_differ(before) implies (
                    #[trigger] self.images@[i]).filename@ != (
                    #[trigger] self.images@[j]).filename@ by {
                        assert(self.images@[i] == before[i]);
                        assert(names[i] == before[i].filename@);
                        if j < before.len() {
                            assert(self.images@[j] == before[j]);
                        }
                    }
                }
                ImageTaken::Taken
            },
            Err(e) => ImageTaken::Failed(e),
        }
    }

    /// An image came.
    pub fn add_image(&mut self, raw: &[u8], now: &LocalTime) -> (r: ImageTaken)
        requires
            now.valid(),
        ensures
            final(self).message == old(self).message,
            raw@.len() == 0 <==> r is Empty,
            match r {
                ImageTaken::Taken => exists|webp: Seq<u8>| #[trigger]
                    picture::is_webp_of(raw@, webp) && adds_image(
                        old(self).images@,
                        final(self).images@,
                        webp,
                        *now,
                    ),
                ImageTaken::Empty => final(self).images == old(self).images,
                ImageTaken::Failed(PictureError::Unreadable(_)) => final(self).images
                    == old(self).images && picture::pictures_in(raw@) == Set::<
                    picture::Picture,
                >::empty(),
                ImageTaken::Failed(PictureError::Unwritable(_)) => final(self).images
                    == old(self).images && picture::may_be_empty(raw@),
            },
            names_differ(old(self).images@) ==> names_differ(final(self).images@),
    {
        match make_image(raw) {
            None => ImageTaken::Empty,
            Some(made) => self.keep_image(made, now),
        }
    }

    /// The form is complete. There is nothing to do where it holds neither a message nor an
    /// image.
    pub fn close(self) -> (r: Option<WebTurn>)
        ensures
            match r {
                None => text::trim(self.message@).len() == 0 && self.images@.len() == 0,
                Some(turn) => {
                    &&& text::trim(self.message@).len() > 0 || self.images@.len() > 0
                    &&& turn.message@ == text::trim(self.message@)
                    &&& turn.images == self.images
                    &&& names_differ(self.images@) ==> names_differ(turn.images@)
                    &&& turn.saved@ == Seq::<String>::empty()
                    &&& turn.files@ == Seq::<String>::empty()
                },
            },
    {
        let message = trim_text(self.message.as_str());
        if message.as_str().is_empty() && self.images.len() == 0 {
            return None;
        }
        Some(WebTurn { message, images: self.images, saved: Vec::new(), files: Vec::new() })
    }
}

/// A question that came over the web.
pub struct WebTurn {
    pub message: String,
    pub images: Vec<WebImage>,
    /// The names of the images that could be kept.
    pub saved: Vec<String>,
    /// The names of the images that were handed on.
    pub files: Vec<String>,
}

/// What is done once the model was asked.
pub struct WebFinish {
    /// The conversation that is kept under the key of the web.
    pub keep: Option<String>,
    pub remember: Option<Remembered>,
}

/// What the model is asked: the message, or that an image was sent where it is empty.
pub open spec fn web_query(message: Seq<char>, saved: Seq<Seq<char>>) -> Seq<char> {
    if message.len() == 0 && saved.len() > 0 {
        "（画像を送ったよ）"@
    } else {
        message
    }
}

/// What is remembered of an outcome: the message with the names of its images, and the
/// whole answer, where there is one.
pub open spec fn web_remembered(
    message: Seq<char>,
    saved: Seq<Seq<char>>,
    outcome: Outcome,
) -> Option<(Seq<char>, Seq<char>)> {
    match outcome {
        Outcome::Answered(result) => if result.answer@.len() > 0 {
            Some((memory_log::tagged_message(saved, message), result.answer@))
        } else {
            None
        },
        _ => None,
    }
}

impl WebTurn {
    /// Where an image is kept.
    pub fn image_path(&self, image_save_dir: &str, i: usize) -> (r: String)
        requires
            i < self.images@.len(),
        ensures
            r@ == image_name::web_directory(image_save_dir@) + "/"@
                + self.images@[i as int].filename@,
    {
        let mut s = web_image_dir(image_save_dir);
        s.append("/");
        s.append(self.images[i].filename.as_str());
        s
    }

    /// An image could be kept.
    pub fn image_saved(&mut self, i: usize)
        requires
            i < old(self).images@.len(),
        ensures
            text::texts(final(self).saved@) == text::texts(old(self).saved@).push(
                old(self).images@[i as int].filename@,
            ),
            final(self).message == old(self).message,
            final(self).images == old(self).images,
            final(self).files == old(self).files,
    {
        let ghost before = text::texts(self.saved@);
        let name = String::from_str(self.images[i].filename.as_str());
        let ghost n = name@;
        self.saved.push(name);
        assert(text::texts(self.saved@) =~= before.push(n));
    }

    /// How many of the images are handed on to the model: all where it can see, and none
    /// where it cannot.
    pub fn images_to_upload(&self, vision_enabled: bool) -> (r: usize)
        ensures
            r == if vision_enabled {
                self.images@.len()
            } else {
                0
            },
    {
        if vision_enabled {
            self.images.len()
        } else {
            0
        }
    }

    /// An image was handed on, and has this name now.
    pub fn uploaded(&mut self, id: String)
        ensures
            text::texts(final(self).files@) == text::texts(old(self).files@).push(id@),
            final(self).message == old(self).message,
            final(self).images == old(self).images,
            final(self).saved == old(self).saved,
    {
        let ghost before = text::texts(self.files@);
        self.files.push(id);
        assert(text::texts(self.files@) =~= before.push(id@));
    }

    /// The request that asks the model.
    pub fn request(&self, base: &str, key: &str, now: &LocalTime, conversation: &str) -> (r:
        DifyRequest)
        requires
            now.valid(),
        ensures
            r.url@ == base@ + "/v1/chat-messages"@,
            r.authorization@ == "Bearer "@ + key@,
            json::json_of(r.body) == dify::chat_json(
                clock::formatted(*now, "%Y年%m月%d日 %H:%M"@),
                web_query(self.message@, text::texts(self.saved@)),
                conversation@,
                "web_user"@,
                text::texts(self.files@),
            ),
    {
        let query = if self.message.as_str().is_empty() && self.saved.len() > 0 {
            "（画像を送ったよ）"
        } else {
            self.message.as_str()
        };
        chat_request(base, key, now, query, conversation, WEB_USER, &self.files)
    }

    /// What is done once the model was asked.
    pub fn finish(&self, outcome: &Outcome) -> (r: WebFinish)
        ensures
            text::opt_text(r.keep) == chat::kept_conversation(*outcome),
            chat::remembers(
                r.remember,
                web_remembered(self.message@, text::texts(self.saved@), *outcome),
            ),
    {
        match outcome {
            Outcome::Answered(result) => {
                let keep = conversation_to_keep(result);
                if result.answer.as_str().is_empty() {
                    return WebFinish { keep, remember: None };
                }
                WebFinish {
                    keep,
                    remember: Some(
                        Remembered {
                            user_input: user_log_message(&self.saved, self.message.as_str()),
                            bot_reply: String::from_str(result.answer.as_str()),
                        },
                    ),
                }
            },
            _ => WebFinish { keep: None, remember: None },
        }
    }
}

/// A kept image that is asked for.
pub struct ImageFile {
    pub path: String,
    pub content_type: &'static str,
}

/// Whether a file name leads nowhere but to a file in its own directory.
pub open spec fn is_plain_name(name: Seq<char>) -> bool {
    !text::has_text(name, "/"@) && !text::has_text(name, ".."@) && !text::has_text(name, "\\"@)
}

/// The content type of a kept image, by its name.
pub open spec fn served_type(name: Seq<char>) -> Seq<char> {
    if text::has_suffix(name, ".webp"@) {
        "image/webp"@
    } else if text::has_suffix(name, ".jpg"@) || text::has_suffix(name, ".jpeg"@) {
        "image/jpeg"@
    } else if text::has_suffix(name, ".png"@) {
        "image/png"@
    } else {
        "application/octet-stream"@
    }
}

/// The status of a request for an image whose name is not plain.
pub const BAD_REQUEST: u16 = 400;

/// The status of a request for an image that cannot be read.
pub const NOT_FOUND: u16 = 404;

/// Where a kept image is that is asked for, or the status that says why it is not given.
pub fn serve_image(filename: &str, image_save_dir: &str) -> (r: Result<ImageFile, u16>)
    ensures
        match r {
            Ok(file) => is_plain_name(filename@) && file.path@ == image_name::web_directory(
                image_save_dir@,
            ) + "/"@ + filename@ && file.content_type@ == served_type(filename@),
            Err(status) => !is_plain_name(filename@) && status == BAD_REQUEST,
        },
{
    if contains_text(filename, "/") || contains_text(filename, "..") || contains_text(
        filename,
        "\\",
    ) {
        return Err(BAD_REQUEST);
    }
    let mut path = web_image_dir(image_save_dir);
    path.append("/");
    path.append(filename);
    let content_type = if finishes_with(filename, ".webp") {
        "image/webp"
    } else if finishes_with(filename, ".jpg") || finishes_with(filename, ".jpeg") {
        "image/jpeg"
    } else if finishes_with(filename, ".png") {
        "image/png"
    } else {
        "application/octet-stream"
    };
    Ok(ImageFile { path, content_type })
}

/// An image that came over the web has a name under which it is given out again, as what
/// it is.
pub proof fn law_kept_image_is_served(now: LocalTime, number: nat)
    ensures
        is_plain_name(image_name::web_name(now, number)),
        served_type(image_name::web_name(now, number)) == "image/webp"@,
{
    let p = "%Y%m%d_%H%M%S_%3f"@;
    reveal_strlit("%Y%m%d_%H%M%S_%3f");
    reveal_strlit("web_");
    reveal_strlit(".webp");
    reveal_strlit("/");
    reveal_strlit("..");
    reveal_strlit("\\");
    image_name::lemma_web_name_chars(now, number);
    let name = image_name::web_name(now, number);
    let n = name.len() - 5;
    assert forall|i: int| 0 <= i < name.len() implies name[i] != '/' && name[i] != '\\' && (name[i]
        == '.' ==> i == n) by {
        if i < 4 {
            assert(name[i] == name.take(4)[i]);
        } else if i < n {
            assert(clock::is_time_char(name[i], p));
        } else {
            assert(name[i] == name.skip(n)[i - n]);
        }
    }
    assert forall|i: int| !text::occurs_at(name, "/"@, i) by {
        if text::occurs_at(name, "/"@, i) {
            assert(name.subrange(i, i + 1)[0] == "/"@[0]);
        }
    }
    assert forall|i: int| !text::occurs_at(name, "\\"@, i) by {
        if text::occurs_at(name, "\\"@, i) {
            assert(name.subrange(i, i + 1)[0] == "\\"@[0]);
        }
    }
    assert forall|i: int| !text::occurs_at(name, ".."@, i) by {
        if text::occurs_at(name, ".."@, i) {
            assert(name.subrange(i, i + 2)[0] == ".."@[0]);
            assert(name.subrange(i, i + 2)[1] == ".."@[1]);
        }
    }
    assert(name.subrange(n, name.len() as int) =~= name.skip(n));
}

/// The names of images, by the times at which they came and their numbers.
pub open spec fn stamped_names(stamps: Seq<(LocalTime, nat)>) -> Seq<Seq<char>> {
    stamps.map_values(|s: (LocalTime, nat)| image_name::web_name(s.0, s.1))
}

/// What was said over the web with images is read back from the log as it was said: the
/// names of the images, the message and the whole answer. A message of several lines, and
/// an answer with lines that open something else in the log, are left out.
pub proof fn law_web_exchange_is_read_back(
    log: Seq<char>,
    at: LocalTime,
    sent: Seq<char>,
    stamps: Seq<(LocalTime, nat)>,
    outcome: Outcome,
)
    requires
        outcome is Answered,
        outcome->Answered_0.answer@.len() > 0,
        stamps.len() > 0,
        memory_log::is_loggable_answer(outcome->Answered_0.answer@),
        memory_log::is_loggable_message(
            memory_log::tagged_message(
                stamped_names(stamps),
                text::trim(sent),
            ),
        ),
    ensures
        ({
            let names = stamped_names(stamps);
            let (user, bot) = web_remembered(text::trim(sent), names, outcome)->0;
            let time = clock::formatted(at, "%Y-%m-%d %H:%M:%S"@);
            memory_log::log_entries(log + memory_log::entry_text(time, user, bot)).last() == (
            memory_log::Entry {
                time,
                images: names,
                user: text::trim(sent),
                bot: outcome->Answered_0.answer@,
            })
        }),
{
    let names = stamped_names(stamps);
    let message = text::trim(sent);
    assert forall|i: int| 0 <= i < names.len() implies memory_log::is_image_name(
        #[trigger] names[i],
    ) by {
        image_name::law_web_name_can_be_tagged(stamps[i].0, stamps[i].1);
    }
    text::lemma_trim(sent);
    reveal_strlit(" ");
    if text::has_prefix(message, " "@) {
        assert(message.subrange(0, 1)[0] == ' ');
    }
    memory_log::law_tagged_message_is_read_back(names, message);
    memory_log::law_appended_entry_is_read_back(
        log,
        at,
        memory_log::tagged_message(names, message),
        outcome->Answered_0.answer@,
    );
}

/// What a question over the web is, and what is remembered of it: the message, or that an
/// image was sent where there is no message but an image that was kept; and the message with
/// the names of the images in front, with the whole answer, where there is one.
pub proof fn law_web_question(message: Seq<char>, saved: Seq<Seq<char>>, outcome: Outcome)
    ensures
        message.len() > 0 || saved.len() == 0 ==> web_query(message, saved) == message,
        message.len() == 0 && saved.len() > 0 ==> web_query(message, saved)
            == "（画像を送ったよ）"@,
        match outcome {
            Outcome::Answered(result) => {
                &&& result.answer@.len() == 0 ==> web_remembered(message, saved, outcome) is None
                &&& result.answer@.len() > 0 ==> web_remembered(message, saved, outcome) == Some(
                    (
                        if saved.len() == 0 {
                            message
                        } else {
                            "[画像: "@ + text::join(saved, "|"@) + "] "@ + message
                        },
                        result.answer@,
                    ),
                )
            },
            _ => web_remembered(message, saved, outcome) is None,
        },
        WEB_KEY@ == "web_web"@,
        WEB_USER@ == "web_user"@,
        AFTER_SEND@ == "/chat"@,
{
}

/// Which names of images are served, and as what.
pub proof fn law_served_images(name: Seq<char>)
    ensures
        is_plain_name(name) <==> !(exists|i: int|
            0 <= i < name.len() && ((#[trigger] name[i]) == '/' || name[i] == '\\')) && !(exists|
            i: int,
        |
            0 <= i < name.len() - 1 && (#[trigger] name[i]) == '.' && name[i + 1] == '.'),
        text::has_suffix(name, ".webp"@) ==> served_type(name) == "image/webp"@,
        text::has_suffix(name, ".jpg"@) || text::has_suffix(name, ".jpeg"@) ==> served_type(name)
            == "image/jpeg"@,
        text::has_suffix(name, ".png"@) ==> served_type(name) == "image/png"@,
        !text::has_suffix(name, ".webp"@) && !text::has_suffix(name, ".jpg"@) && !text::has_suffix(
            name,
            ".jpeg"@,
        ) && !text::has_suffix(name, ".png"@) ==> served_type(name)
            == "application/octet-stream"@,
        BAD_REQUEST == 400,
        NOT_FOUND == 404,
{
    reveal_strlit("/");
    reveal_strlit("\\");
    reveal_strlit("..");
    reveal_strlit(".webp");
    reveal_strlit(".jpg");
    reveal_strlit(".jpeg");
    reveal_strlit(".png");
    let n = name.len() as int;
    assert forall|i: int| 0 <= i < n && name[i] == '/' implies text::occurs_at(name, "/"@, i) by {
        assert(name.subrange(i, i + 1) =~= "/"@);
    }
    assert forall|i: int| 0 <= i < n && name[i] == '\\' implies text::occurs_at(
        name,
        "\\"@,
        i,
    ) by {
        assert(name.subrange(i, i + 1) =~= "\\"@);
    }
    assert forall|i: int|
        0 <= i < n - 1 && (#[trigger] name[i]) == '.' && name[i + 1] == '.' implies text::occurs_at(
        name,
        ".."@,
        i,
    ) by {
        assert(name.subrange(i, i + 2) =~= ".."@);
    }
    if text::has_text(name, "/"@) {
        let i = choose|i: int| text::occurs_at(name, "/"@, i);
        assert(name.subrange(i, i + 1)[0] == name[i]);
    }
    if text::has_text(name, "\\"@) {
        let i = choose|i: int| text::occurs_at(name, "\\"@, i);
        assert(name.subrange(i, i + 1)[0] == name[i]);
    }
    if text::has_text(name, ".."@) {
        let i = choose|i: int| text::occurs_at(name, ".."@, i);
        assert(name.subrange(i, i + 2)[0] == name[i]);
        assert(name.subrange(i, i + 2)[1] == name[i + 1]);
    }
    if text::has_suffix(name, ".webp"@) {
        assert(name.subrange(n - 5, n)[4] == name[n - 1]);
    }
    if text::has_suffix(name, ".png"@) {
        assert(name.subrange(n - 4, n)[3] == name[n - 1]);
        assert(name.subrange(n - 4, n)[2] == name[n - 2]);
    }
    if text::has_suffix(name, ".jpg"@) {
        assert(name.subrange(n - 4, n)[3] == name[n - 1]);
        assert(name.subrange(n - 4, n)[2] == name[n - 2]);
    }
    if text::has_suffix(name, ".jpeg"@) {
        assert(name.subrange(n - 5, n)[4] == name[n - 1]);
        assert(name.subrange(n - 5, n)[3] == name[n - 2]);
    }
}

/// What is added for an image: its file, behind those that were there, with a name that begins
/// with the time at which it came; where no image of that time is there yet, just the time.
pub proof fn law_added_image(
    before: Seq<WebImage>,
    after: Seq<WebImage>,
    webp: Seq<u8>,
    now: LocalTime,
)
    requires
        adds_image(before, after, webp, now),
    ensures
        after.len() == before.len() + 1,
        after.last().webp@ == webp,
        forall|i: int|
            0 <= i < before.len() ==> (#[trigger] after[i]).webp@ == before[i].webp@
                && after[i].filename@ == before[i].filename@,
        forall|i: int| 0 <= i < before.len() ==> (#[trigger] before[i]).filename@
            != after.last().filename@,
        text::has_prefix(
            after.last().filename@,
            "web_"@ + clock::formatted(now, "%Y%m%d_%H%M%S_%3f"@),
        ),
        text::has_suffix(after.last().filename@, ".webp"@),
        (forall|i: int|
            0 <= i < before.len() ==> (#[trigger] before[i]).filename@ != "web_"@
                + clock::formatted(now, "%Y%m%d_%H%M%S_%3f"@) + ".webp"@) ==> after.last().filename@
            == "web_"@ + clock::formatted(now, "%Y%m%d_%H%M%S_%3f"@) + ".webp"@,
{
    let a = images_view(after);
    let b = images_view(before);
    let name = after.last().filename@;
    let names = names_of(before);
    assert(a.len() == after.len());
    assert(b.len() == before.len());
    assert(a[before.len() as int] == (webp, name));
    assert forall|i: int| 0 <= i < before.len() implies (#[trigger] after[i]).webp@
        == before[i].webp@ && after[i].filename@ == before[i].filename@ by {
        assert(a[i] == (after[i].webp@, after[i].filename@));
        assert(b[i] == (before[i].webp@, before[i].filename@));
        assert(a[i] == b[i]);
    }
    assert forall|i: int| 0 <= i < before.len() implies (#[trigger] before[i]).filename@
        != name by {
        assert(names[i] == before[i].filename@);
    }
    let n = choose|n: nat|
        name == #[trigger] image_name::web_name(now, n) && forall|k: nat|
            k < n ==> names.contains(#[trigger] image_name::web_name(now, k));
    image_name::law_web_name(now, n);
    image_name::law_web_name(now, 0);
    let stamp = "web_"@ + clock::formatted(now, "%Y%m%d_%H%M%S_%3f"@);
    let rest = if n == 0 {
        ".webp"@
    } else {
        "_"@ + number::decimal(n) + ".webp"@
    };
    assert(name =~= stamp + rest);
    text::law_text_in_text(seq![], stamp, rest, name);
    let front = name.take(name.len() - ".webp"@.len());
    assert(name =~= front + ".webp"@);
    text::law_text_in_text(front, ".webp"@, seq![], name);
    if n > 0 {
        assert(names.contains(image_name::web_name(now, 0)));
        let i = choose|i: int| 0 <= i < names.len() && names[i] == image_name::web_name(now, 0);
        assert(before[i].filename@ == names[i]);
    }
}

}
