//! Speech: what was heard becomes a question, and the answer is spoken.

use vstd::prelude::*;
use vstd::string::StringExecFns;

use crate::audio;
use crate::audio::downsample_stereo_48k_to_mono_16k;
use crate::chat;
use crate::chat::conversation_to_keep;
use crate::chat::Command;
use crate::chat::Outcome;
use crate::chat::Remembered;
use crate::clock;
use crate::clock::LocalTime;
use crate::dify;
use crate::dify::chat_request;
use crate::dify::refusal_text;
use crate::dify::DifyRequest;
use crate::dify::Reply;
use crate::dify_stream;
use crate::dify_stream::text_from_utf8_lossy;
use crate::discord;
use crate::json;
use crate::json::json_item;
use crate::json::json_items;
use crate::json::json_member;
use crate::json::json_unsigned;
use crate::json::member_text;
use crate::json::parse_json_bytes;
use crate::json::Json;
use crate::memory_log;
use crate::number;
use crate::number::decimal_text;
use crate::number::parse_u32;
use crate::number::signed_decimal_text;
use crate::reply;
use crate::reply::strip_think_tags;
use crate::text;
use crate::text::chars_of;
use crate::text::contains_text;
use crate::text::join_texts;
use crate::text::lines_of;
use crate::text::same_text;
use crate::text::text_or;
use crate::text::trim_text;
use crate::voice_buffer;
use crate::voice_buffer::VoiceShared;

verus! {

/// Samples per second that the recogniser takes, of one channel and 16 bits each.
pub const WAV_SAMPLE_RATE: u32 = 16000;

pub const WAV_CHANNELS: u16 = 1;

pub const WAV_BITS_PER_SAMPLE: u16 = 16;

/// An utterance that is handed to the recogniser.
pub struct Utterance {
    /// Who spoke.
    pub label: String,
    /// The file that it is written to.
    pub wav_path: String,
    pub samples: Vec<i16>,
}

/// The file of an utterance.
pub open spec fn wav_in_path(ssrc: u32) -> Seq<char> {
    "/tmp/yachiyo_in_"@ + number::decimal(ssrc as nat) + ".wav"@
}

/// Turns what was heard into what the recogniser takes.
pub fn utterance(shared: &VoiceShared, ssrc: u32, pcm_48k_stereo: &[i16]) -> (r: Utterance)
    ensures
        r.label@ == voice_buffer::label_of(shared.users(), ssrc),
        r.wav_path@ == wav_in_path(ssrc),
        r.samples@ == audio::thirds(audio::mono(pcm_48k_stereo@)),
{
    let mut wav_path = String::from_str("/tmp/yachiyo_in_");
    wav_path.append(decimal_text(ssrc as u64).as_str());
    wav_path.append(".wav");
    Utterance {
        label: shared.user_label(ssrc),
        wav_path,
        samples: downsample_stereo_48k_to_mono_16k(pcm_48k_stereo),
    }
}

/// What is said where the file of an utterance could not be written.
pub fn wav_failure(why: &str) -> (r: String)
    ensures
        r@ == "WAV書き出し失敗: "@ + why@,
{
    let mut s = String::from_str("WAV書き出し失敗: ");
    s.append(why);
    s
}

/// How the recogniser is run on a file: in Japanese, without timestamps and without
/// progress.
pub fn whisper_command(bin: Option<String>, model: Option<String>, wav_path: &str) -> (r: Command)
    ensures
        r.program@ == text::or_else(bin, "whisper-cli"@),
        text::texts(r.args@) == seq![
            "-m"@,
            text::or_else(model, "/usr/local/share/whisper/ggml-base.bin"@),
            "-f"@,
            wav_path@,
            "-l"@,
            "ja"@,
            "-nt"@,
            "-np"@,
        ],
{
    let mut args: Vec<String> = Vec::new();
    args.push(String::from_str("-m"));
    args.push(text_or(model, "/usr/local/share/whisper/ggml-base.bin"));
    args.push(String::from_str("-f"));
    args.push(String::from_str(wav_path));
    args.push(String::from_str("-l"));
    args.push(String::from_str("ja"));
    args.push(String::from_str("-nt"));
    args.push(String::from_str("-np"));
    assert(text::texts(args@) =~= seq![
        "-m"@,
        text::or_else(model, "/usr/local/share/whisper/ggml-base.bin"@),
        "-f"@,
        wav_path@,
        "-l"@,
        "ja"@,
        "-nt"@,
        "-np"@,
    ]);
    Command { program: text_or(bin, "whisper-cli"), args }
}

/// How the recogniser ended.
pub enum Recognised {
    /// It could not be run; the text says why.
    NotRun(String),
    /// It failed, and wrote this.
    Failed(Vec<u8>),
    /// It wrote this.
    Done(Vec<u8>),
}

/// Whether a line of the recogniser, without the white space around it, is speech: it is
/// not empty, and does not begin with a bracket, as a timestamp does.
pub open spec fn is_speech(line: Seq<char>) -> bool {
    line.len() > 0 && line[0] != '['
}

/// The lines that are speech, without the white space around them.
pub open spec fn speech_lines(lines: Seq<Seq<char>>) -> Seq<Seq<char>>
    decreases lines.len(),
{
    if lines.len() == 0 {
        seq![]
    } else {
        let before = speech_lines(lines.drop_last());
        let line = text::trim(lines.last());
        if is_speech(line) {
            before.push(line)
        } else {
            before
        }
    }
}

/// The speech in what the recogniser wrote, on one line.
pub open spec fn speech_in(output: Seq<char>) -> Seq<char> {
    text::join(speech_lines(text::lines(output)), " "@)
}

/// The speech in what the recogniser wrote, on one line.
pub fn speech_of(output: &str) -> (r: String)
    ensures
        r@ == speech_in(output@),
{
    let lines = lines_of(output);
    let ghost all = text::texts(lines@);
    let mut kept: Vec<String> = Vec::new();
    let mut i: usize = 0;
    while i < lines.len()
        invariant
            i <= lines@.len(),
            all == text::texts(lines@),
            text::texts(kept@) =~= speech_lines(all.take(i as int)),
        decreases lines@.len() - i,
    {
        assert(all.take(i + 1).drop_last() =~= all.take(i as int));
        let line = trim_text(lines[i].as_str());
        let x = chars_of(line.as_str());
        if x.len() > 0 && x[0] != '[' {
            let ghost before = text::texts(kept@);
            let ghost l = line@;
            kept.push(line);
            assert(text::texts(kept@) =~= before.push(l));
        }
        i += 1;
    }
    assert(all.take(all.len() as int) =~= all);
    join_texts(&kept, " ")
}

/// The text that the recogniser gave, or why there is none.
pub fn run_whisper(outcome: &Recognised) -> (r: Result<String, String>)
    ensures
        match *outcome {
            Recognised::NotRun(why) => r matches Err(e) && e@ == "whisper-cli 実行失敗: "@ + why@,
            Recognised::Failed(stderr) => r matches Err(e) && e@ == "whisper-cli エラー: "@
                + dify_stream::utf8_lossy(stderr@) && dify_stream::reads_utf8(stderr@),
            Recognised::Done(stdout) => r matches Ok(s) && s@ == speech_in(
                dify_stream::utf8_lossy(stdout@),
            ) && dify_stream::reads_utf8(stdout@),
        },
{
    match outcome {
        Recognised::NotRun(why) => {
            let mut e = String::from_str("whisper-cli 実行失敗: ");
            e.append(why.as_str());
            Err(e)
        },
        Recognised::Failed(stderr) => {
            let mut e = String::from_str("whisper-cli エラー: ");
            e.append(text_from_utf8_lossy(stderr.as_slice()).as_str());
            Err(e)
        },
        Recognised::Done(stdout) => Ok(
            speech_of(text_from_utf8_lossy(stdout.as_slice()).as_str()),
        ),
    }
}

/// Whether a text holds what the recogniser makes up where nobody spoke.
pub open spec fn has_noise(t: Seq<char>) -> bool {
    ||| text::has_text(t, "[BLANK_AUDIO]"@)
    ||| text::has_text(t, "(無音)"@)
    ||| text::has_text(t, "(silence)"@)
    ||| text::has_text(t, "ご視聴ありがとうございました"@)
    ||| text::has_text(t, "字幕は自動生成されました"@)
    ||| text::has_text(t, "チャンネル登録"@)
    ||| text::has_text(t, "ありがとうございました。"@)
}

/// Whether a text is no question: it has less than two bytes, or holds noise.
pub open spec fn is_noise(s: Seq<char>) -> bool {
    reply::byte_len(text::trim(s)) < 2 || has_noise(text::trim(s))
}

/// Whether a text is noise, or what the recogniser makes up where nobody spoke.
pub fn is_noise_or_hallucination(text: &str) -> (r: bool)
    ensures
        r == is_noise(text@),
        r == ({
            let t = text::trim(text@);
            ||| vstd::utf8::encode_utf8(t).len() < 2
            ||| text::has_text(t, "[BLANK_AUDIO]"@)
            ||| text::has_text(t, "(無音)"@)
            ||| text::has_text(t, "(silence)"@)
            ||| text::has_text(t, "ご視聴ありがとうございました"@)
            ||| text::has_text(t, "字幕は自動生成されました"@)
            ||| text::has_text(t, "チャンネル登録"@)
            ||| text::has_text(t, "ありがとうございました。"@)
        }),
{
    let t = trim_text(text);
    if t.as_str().as_bytes().len() < 2 {
        return true;
    }
    contains_text(t.as_str(), "[BLANK_AUDIO]") || contains_text(t.as_str(), "(無音)")
        || contains_text(t.as_str(), "(silence)") || contains_text(
        t.as_str(),
        "ご視聴ありがとうございました",
    ) || contains_text(t.as_str(), "字幕は自動生成されました") || contains_text(
        t.as_str(),
        "チャンネル登録",
    ) || contains_text(t.as_str(), "ありがとうございました。")
}

/// A question that was spoken.
pub struct VoiceTurn {
    /// Who asks.
    pub label: String,
    /// What the conversation is kept under.
    pub key: String,
    pub query: String,
}

impl Utterance {
    /// What was recognised becomes a question, unless it is noise.
    pub fn recognised(self, outcome: &Recognised) -> (r: Result<Option<VoiceTurn>, String>)
        ensures
            match *outcome {
                Recognised::NotRun(why) => r matches Err(e) && e@ == "whisper-cli 実行失敗: "@
                    + why@,
                Recognised::Failed(stderr) => r matches Err(e) && e@ == "whisper-cli エラー: "@
                    + dify_stream::utf8_lossy(stderr@) && dify_stream::reads_utf8(stderr@),
                Recognised::Done(stdout) => {
                    let said = text::trim(speech_in(dify_stream::utf8_lossy(stdout@)));
                    &&& dify_stream::reads_utf8(stdout@)
                    &&& if is_noise(said) {
                        r matches Ok(None)
                    } else {
                        r matches Ok(Some(turn)) && turn.label@ == self.label@ && turn.key@
                            == "voice_"@ + self.label@ && turn.query@ == said
                    }
                },
            },
    {
        match run_whisper(outcome) {
            Err(e) => Err(e),
            Ok(s) => Ok(self.ask(s.as_str())),
        }
    }

    /// A text that was recognised becomes a question, unless it is noise.
    pub fn ask(self, recognised: &str) -> (r: Option<VoiceTurn>)
        ensures
            match r {
                None => is_noise(text::trim(recognised@)),
                Some(turn) => !is_noise(text::trim(recognised@)) && turn.label@ == self.label@
                    && turn.key@ == "voice_"@ + self.label@ && turn.query@ == text::trim(
                    recognised@,
                ),
            },
    {
        let query = trim_text(recognised);
        if is_noise_or_hallucination(query.as_str()) {
            return None;
        }
        let mut key = String::from_str("voice_");
        key.append(self.label.as_str());
        Some(VoiceTurn { label: self.label, key, query })
    }
}

/// What is done once the model was asked.
pub struct VoiceFinish {
    /// The conversation that is kept under the key of the question.
    pub keep: Option<String>,
    /// What is spoken.
    pub speak: Option<String>,
    pub remember: Option<Remembered>,
}

impl VoiceTurn {
    /// The request that asks the model.
    pub fn request(&self, base: &str, key: &str, now: &LocalTime, conversation: &str) -> (r:
        DifyRequest)
        requires
            now.valid(),
        ensures
            r.url@ == base@ + "/v1/chat-messages"@,
            r.authorization@ == "Bearer "@ + key@,
            json::json_of(r.body) == dify::chat_json(
                clock::formatted(*now, "%Y年%m月%d日 %H:%M"@),
                self.query@,
                conversation@,
                self.label@,
                seq![],
            ),
    {
        let files: Vec<String> = Vec::new();
        assert(text::texts(files@) =~= seq![]);
        chat_request(
            base,
            key,
            now,
            self.query.as_str(),
            conversation,
            self.label.as_str(),
            &files,
        )
    }

    /// What is done once the model was asked: an answer is spoken without its thoughts, and
    /// remembered with them. Where nothing of it is left to speak, only its conversation is
    /// kept.
    pub fn finish(&self, outcome: &Outcome) -> (r: Result<VoiceFinish, String>)
        ensures
            match *outcome {
                Outcome::Unreachable(why) => r matches Err(e) && e@ == why@,
                Outcome::Refused(status) => r matches Err(e) && e@ == "Dify HTTP "@ + status@,
                Outcome::Broken(why) => r matches Err(e) && e@ == why@,
                Outcome::Answered(result) => {
                    let spoken = discord::shown(result.answer@);
                    &&& r is Ok
                    &&& text::opt_text(r->Ok_0.keep) == chat::kept_conversation(*outcome)
                    &&& text::opt_text(r->Ok_0.speak) == if spoken.len() > 0 {
                        Some(spoken)
                    } else {
                        None
                    }
                    &&& chat::remembers(
                        r->Ok_0.remember,
                        discord::remembered(self.query@, *outcome),
                    )
                },
            },
    {
        match outcome {
            Outcome::Unreachable(why) => Err(String::from_str(why.as_str())),
            Outcome::Refused(status) => {
                let mut e = String::from_str("Dify HTTP ");
                e.append(status.as_str());
                Err(e)
            },
            Outcome::Broken(why) => Err(String::from_str(why.as_str())),
            Outcome::Answered(result) => {
                let keep = conversation_to_keep(result);
                let display_answer = strip_think_tags(result.answer.as_str());
                if display_answer.as_str().is_empty() {
                    return Ok(VoiceFinish { keep, speak: None, remember: None });
                }
                Ok(
                    VoiceFinish {
                        keep,
                        speak: Some(display_answer),
                        remember: Some(
                            Remembered {
                                user_input: String::from_str(self.query.as_str()),
                                bot_reply: String::from_str(result.answer.as_str()),
                            },
                        ),
                    },
                )
            },
        }
    }
}

/// The address of the synthesiser: the one that is set, or the local machine.
pub fn voicevox_url(setting: Option<String>) -> (r: String)
    ensures
        r@ == text::or_else(setting, "http://localhost:50021"@),
{
    text_or(setting, "http://localhost:50021")
}

/// Where the synthesiser lists its speakers.
pub fn speakers_url(base: &str) -> (r: String)
    ensures
        r@ == base@ + "/speakers"@,
{
    let mut s = String::from_str(base);
    s.append("/speakers");
    s
}

/// A request to the synthesiser, with its parameters.
pub struct VoicevoxCall {
    pub url: String,
    pub params: Vec<(String, String)>,
}

/// The names and values of parameters.
pub open spec fn params_view(params: Seq<(String, String)>) -> Seq<(Seq<char>, Seq<char>)> {
    params.map_values(|p: (String, String)| (p.0@, p.1@))
}

/// The request for how a text is spoken.
pub fn audio_query_call(base: &str, text: &str, speaker_id: u32) -> (r: VoicevoxCall)
    ensures
        r.url@ == base@ + "/audio_query"@,
        params_view(r.params@) == seq![
            ("text"@, text@),
            ("speaker"@, number::decimal(speaker_id as nat)),
        ],
{
    let mut url = String::from_str(base);
    url.append("/audio_query");
    let mut params: Vec<(String, String)> = Vec::new();
    params.push((String::from_str("text"), String::from_str(text)));
    params.push((String::from_str("speaker"), decimal_text(speaker_id as u64)));
    assert(params_view(params@) =~= seq![
        ("text"@, text@),
        ("speaker"@, number::decimal(speaker_id as nat)),
    ]);
    VoicevoxCall { url, params }
}

/// The request for the sound, which goes with what came back for the first one.
pub fn synthesis_call(base: &str, speaker_id: u32) -> (r: VoicevoxCall)
    ensures
        r.url@ == base@ + "/synthesis"@,
        params_view(r.params@) == seq![("speaker"@, number::decimal(speaker_id as nat))],
{
    let mut url = String::from_str(base);
    url.append("/synthesis");
    let mut params: Vec<(String, String)> = Vec::new();
    params.push((String::from_str("speaker"), decimal_text(speaker_id as u64)));
    assert(params_view(params@) =~= seq![("speaker"@, number::decimal(speaker_id as nat))]);
    VoicevoxCall { url, params }
}

/// Why there is no sound.
pub enum SpeechError {
    Told(String),
    /// How the text is spoken came back as no JSON document.
    NotJson,
}

/// How a text is spoken, or why that is not known.
pub fn audio_query_result(reply: Reply) -> (r: Result<serde_json::Value, SpeechError>)
    ensures
        match reply {
            Reply::Unreachable(why) => r matches Err(SpeechError::Told(e)) && e == why,
            Reply::Refused { status, body } => r matches Err(SpeechError::Told(e)) && e@
                == dify::refusal("VOICEVOX audio_query 失敗: "@, status@, body@),
            Reply::Accepted(bytes) => match json::json_parsed_bytes(bytes@) {
                Some(doc) => r matches Ok(v) && json::json_of(v) == doc,
                None => r matches Err(SpeechError::NotJson),
            },
        },
{
    match reply {
        Reply::Unreachable(why) => Err(SpeechError::Told(why)),
        Reply::Refused { status, body } => Err(
            SpeechError::Told(
                refusal_text("VOICEVOX audio_query 失敗: ", status.as_str(), body.as_str()),
            ),
        ),
        Reply::Accepted(bytes) => match parse_json_bytes(bytes.as_slice()) {
            Ok(v) => Ok(v),
            Err(_) => Err(SpeechError::NotJson),
        },
    }
}

/// The sound, or why there is none.
pub fn synthesis_result(reply: Reply) -> (r: Result<Vec<u8>, SpeechError>)
    ensures
        match reply {
            Reply::Unreachable(why) => r matches Err(SpeechError::Told(e)) && e == why,
            Reply::Refused { status, body } => r matches Err(SpeechError::Told(e)) && e@
                == dify::refusal("VOICEVOX synthesis 失敗: "@, status@, body@),
            Reply::Accepted(bytes) => r == Ok::<Vec<u8>, SpeechError>(bytes),
        },
{
    match reply {
        Reply::Unreachable(why) => Err(SpeechError::Told(why)),
        Reply::Refused { status, body } => Err(
            SpeechError::Told(
                refusal_text("VOICEVOX synthesis 失敗: ", status.as_str(), body.as_str()),
            ),
        ),
        Reply::Accepted(bytes) => Ok(bytes),
    }
}

/// What is said where there is no sound.
pub fn synthesis_failure(why: &str) -> (r: String)
    ensures
        r@ == "VOICEVOX合成失敗: "@ + why@,
{
    let mut s = String::from_str("VOICEVOX合成失敗: ");
    s.append(why);
    s
}

/// Seconds after which the file of a sound is removed.
pub const KEEP_SOUND_SECONDS: u64 = 30;

/// The file that the sound is played from, by the milliseconds since 1970.
pub fn wav_out_path(millis: i64) -> (r: String)
    ensures
        r@ == "/tmp/yachiyo_out_"@ + number::signed_decimal(millis as int) + ".wav"@,
{
    let mut s = String::from_str("/tmp/yachiyo_out_");
    s.append(signed_decimal_text(millis).as_str());
    s.append(".wav");
    s
}

/// What is known of a speaker of the synthesiser.
pub struct Speaker {
    pub name: Option<String>,
    /// The number of the first style, the normal one.
    pub first_style: Option<u64>,
}

/// The same as mathematical values.
pub ghost struct SpeakerView {
    pub name: Option<Seq<char>>,
    pub first_style: Option<u64>,
}

impl View for Speaker {
    type V = SpeakerView;

    open spec fn view(&self) -> SpeakerView {
        SpeakerView { name: text::opt_text(self.name), first_style: self.first_style }
    }
}

pub open spec fn speakers_view(speakers: Seq<Speaker>) -> Seq<SpeakerView> {
    speakers.map_values(|s: Speaker| s@)
}

/// The speaker that an item of the list is.
pub open spec fn speaker_in(item: Json) -> SpeakerView {
    SpeakerView {
        name: item.member("name"@).text(),
        first_style: item.member("styles"@).item(0).member("id"@).unsigned(),
    }
}

/// The speakers in a body; nothing where it is no JSON list.
pub open spec fn speakers_in(body: Option<Json>) -> Option<Seq<SpeakerView>> {
    match body {
        Some(Json::Array(items)) => Some(items.map_values(|item: Json| speaker_in(item))),
        _ => None,
    }
}

/// Reads the list of speakers from a body.
pub fn read_speakers(bytes: &[u8]) -> (r: Option<Vec<Speaker>>)
    ensures
        match r {
            Some(v) => speakers_in(json::json_parsed_bytes(bytes@)) == Some(speakers_view(v@)),
            None => speakers_in(json::json_parsed_bytes(bytes@)) is None,
        },
{
    let doc = match parse_json_bytes(bytes) {
        Ok(doc) => doc,
        Err(_) => {
            return None;
        },
    };
    let items = match json_items(&doc) {
        Some(items) => items,
        None => {
            return None;
        },
    };
    let ghost all = json::jsons_of(items@);
    let ghost f = |item: Json| speaker_in(item);
    let mut speakers: Vec<Speaker> = Vec::new();
    let mut i: usize = 0;
    while i < items.len()
        invariant
            i <= items@.len(),
            all == json::jsons_of(items@),
            f == (|item: Json| speaker_in(item)),
            speakers_view(speakers@) =~= all.take(i as int).map_values(f),
        decreases items@.len() - i,
    {
        let item = &items[i];
        let ghost before = speakers_view(speakers@);
        let s = Speaker {
            name: member_text(item, "name"),
            first_style: json_unsigned(
                json_member(json_item(json_member(item, "styles"), 0), "id"),
            ),
        };
        let ghost one = s@;
        assert(one == speaker_in(all[i as int]));
        speakers.push(s);
        assert(speakers_view(speakers@) =~= before.push(one));
        assert(all.take(i + 1).map_values(f) =~= all.take(i as int).map_values(f).push(one));
        i += 1;
    }
    assert(all.take(all.len() as int) =~= all);
    Some(speakers)
}

pub open spec fn himari() -> Seq<char> {
    "冥鳴ひまり"@
}

/// The number of the voice of the bot: the first style of the first speaker of that name
/// that has one, as far as it fits in 32 bits.
pub open spec fn himari_id(speakers: Seq<SpeakerView>) -> Option<u32>
    decreases speakers.len(),
{
    if speakers.len() == 0 {
        None
    } else {
        match speakers[0].first_style {
            Some(id) if speakers[0].name == Some(himari()) => Some((id % 0x1_0000_0000) as u32),
            _ => himari_id(speakers.drop_first()),
        }
    }
}

fn low_half(id: u64) -> (r: u32)
    ensures
        r == (id % 0x1_0000_0000) as u32,
{
    let low: u64 = id % 0x1_0000_0000;
    low as u32
}

/// The number of the voice of the bot in a list of speakers.
pub fn find_himari(speakers: &Vec<Speaker>) -> (r: Option<u32>)
    ensures
        r == himari_id(speakers_view(speakers@)),
{
    let ghost all = speakers_view(speakers@);
    let mut i: usize = 0;
    assert(all.skip(0) =~= all);
    while i < speakers.len()
        invariant
            i <= speakers@.len(),
            all == speakers_view(speakers@),
            himari_id(all) == himari_id(all.skip(i as int)),
        decreases speakers@.len() - i,
    {
        let ghost here = all.skip(i as int);
        assert(here[0] == speakers@[i as int]@);
        assert(here.drop_first() =~= all.skip(i + 1));
        let is_himari = match &speakers[i].name {
            Some(name) => same_text(name.as_str(), "冥鳴ひまり"),
            None => false,
        };
        if is_himari {
            match speakers[i].first_style {
                Some(id) => {
                    return Some(low_half(id));
                },
                None => {},
            }
        }
        i += 1;
    }
    None
}

/// The voice where none is set and the synthesiser does not say.
pub const DEFAULT_SPEAKER_ID: u32 = 75;

/// The voice that is set; none where the setting is no number.
pub open spec fn set_id(setting: Option<String>) -> Option<u32> {
    match setting {
        Some(s) => number::parsed_u32(s@),
        None => None,
    }
}

/// The voice that the synthesiser's reply lists for the bot.
pub open spec fn listed_id(reply: Reply) -> Option<u32> {
    match reply {
        Reply::Accepted(bytes) => match speakers_in(json::json_parsed_bytes(bytes@)) {
            Some(speakers) => himari_id(speakers),
            None => None,
        },
        _ => None,
    }
}

/// The voice that is chosen: the one that is set, else the one that is listed, else the
/// default.
pub open spec fn chosen_id(set: Option<u32>, listed: Option<u32>) -> u32 {
    match set {
        Some(id) => id,
        None => match listed {
            Some(id) => id,
            None => DEFAULT_SPEAKER_ID,
        },
    }
}

/// The voice that is chosen, by the setting and the one that is listed.
pub fn choose_speaker_id(setting: &Option<String>, listed: Option<u32>) -> (r: u32)
    ensures
        r == chosen_id(set_id(*setting), listed),
{
    let set = match setting {
        Some(s) => parse_u32(s.as_str()),
        None => None,
    };
    match set {
        Some(id) => id,
        None => match listed {
            Some(id) => id,
            None => DEFAULT_SPEAKER_ID,
        },
    }
}

/// The voice of the bot, by the setting and by what the synthesiser replied when it was
/// asked for its speakers. A voice that is set goes before the one that is found.
pub fn resolve_himari_speaker_id(setting: &Option<String>, reply: &Reply) -> (r: u32)
    ensures
        r == match set_id(*setting) {
            Some(id) => id,
            None => match listed_id(*reply) {
                Some(id) => id,
                None => 75,
            },
        },
{
    let listed = match reply {
        Reply::Accepted(bytes) => match read_speakers(bytes.as_slice()) {
            Some(speakers) => find_himari(&speakers),
            None => None,
        },
        _ => None,
    };
    choose_speaker_id(setting, listed)
}

/// What was said over voice is read back from the log as it was said: the question, without
/// any image, and the whole answer. An answer with lines that open something else in the log
/// is left out.
pub proof fn law_voice_exchange_is_read_back(
    log: Seq<char>,
    at: LocalTime,
    output: Seq<char>,
    answer: Seq<char>,
)
    requires
        memory_log::is_loggable_answer(answer),
    ensures
        ({
            let query = text::trim(speech_in(output));
            let time = clock::formatted(at, "%Y-%m-%d %H:%M:%S"@);
            memory_log::log_entries(log + memory_log::entry_text(time, query, answer)).last() == (
            memory_log::Entry { time, images: seq![], user: query, bot: answer })
        }),
{
    let query = text::trim(speech_in(output));
    law_spoken_question_is_one_line(output);
    memory_log::law_appended_entry_is_read_back(log, at, query, answer);
    reveal_strlit("[画像: ");
    if text::has_prefix(query, "[画像: "@) {
        let n = "[画像: "@.len() as int;
        assert(query.subrange(0, n)[0] == '[');
    }
    memory_log::law_plain_message_is_read_back(query);
}

/// A spoken question is one line, does not end with a carriage return, and does not begin
/// with a bracket.
pub proof fn law_spoken_question_is_one_line(output: Seq<char>)
    ensures
        memory_log::is_loggable_message(text::trim(speech_in(output))),
        text::trim(speech_in(output)).len() > 0 ==> text::trim(speech_in(output))[0] != '[',
{
    let lines = text::lines(output);
    let kept = speech_lines(lines);
    let all = speech_in(output);
    let query = text::trim(all);
    lemma_lines_have_no_line_feed(output);
    lemma_speech_lines(lines);
    lemma_joined_lines(kept);
    text::lemma_trim(all);
    if query.contains('\n') {
        let i = choose|i: int| 0 <= i < query.len() && query[i] == '\n';
        assert(all.contains('\n'));
    }
    if kept.len() == 0 {
        assert(all =~= seq![]);
    }
}

proof fn lemma_lines_have_no_line_feed(s: Seq<char>)
    ensures
        forall|k: int| 0 <= k < text::lines(s).len() ==> !(#[trigger] text::lines(s)[k]).contains('\n'),
    decreases s.len(),
{
    if s.len() > 0 {
        text::lemma_find_char(s, '\n');
        match text::find_char(s, '\n') {
            None => {},
            Some(i) => {
                let rest = s.skip(i + 1);
                lemma_lines_have_no_line_feed(rest);
                let first = text::without_cr(s.take(i));
                assert(!first.contains('\n')) by {
                    if first.contains('\n') {
                        let j = choose|j: int| 0 <= j < first.len() && first[j] == '\n';
                        assert(s.take(i)[j] == '\n');
                    }
                }
                assert forall|k: int| 0 <= k < text::lines(s).len() implies !(
                #[trigger] text::lines(s)[k]).contains('\n') by {
                    if k > 0 {
                        assert(text::lines(s)[k] == text::lines(rest)[k - 1]);
                    } else {
                        assert(text::lines(s)[0] == first);
                    }
                }
            },
        }
    }
}

/// The lines that are speech have no line feed and do not begin with white space.
proof fn lemma_speech_lines(lines: Seq<Seq<char>>)
    requires
        forall|k: int| 0 <= k < lines.len() ==> !(#[trigger] lines[k]).contains('\n'),
    ensures
        forall|k: int|
            0 <= k < speech_lines(lines).len() ==> {
                let l = #[trigger] speech_lines(lines)[k];
                !l.contains('\n') && is_speech(l) && !text::is_white_space(l[0])
            },
    decreases lines.len(),
{
    if lines.len() > 0 {
        lemma_speech_lines(lines.drop_last());
        let last = text::trim(lines.last());
        text::lemma_trim(lines.last());
        if last.contains('\n') {
            let i = choose|i: int| 0 <= i < last.len() && last[i] == '\n';
            assert(lines.last().contains(last[i]));
        }
        let front = speech_lines(lines.drop_last());
        let all = speech_lines(lines);
        assert forall|k: int| 0 <= k < all.len() implies ({
            let l = #[trigger] all[k];
            !l.contains('\n') && is_speech(l) && !text::is_white_space(l[0])
        }) by {
            if k < front.len() {
                assert(all[k] == front[k]);
            } else {
                assert(all[k] == last);
            }
        }
    }
}

/// Lines without line feeds, with spaces between them, are one line, which begins as the
/// first of them.
proof fn lemma_joined_lines(lines: Seq<Seq<char>>)
    requires
        forall|k: int|
            0 <= k < lines.len() ==> !(#[trigger] lines[k]).contains('\n') && lines[k].len() > 0,
    ensures
        !text::join(lines, " "@).contains('\n'),
        lines.len() > 0 ==> text::join(lines, " "@).len() > 0 && text::join(lines, " "@)[0]
            == lines[0][0],
    decreases lines.len(),
{
    reveal_strlit(" ");
    let all = text::join(lines, " "@);
    if lines.len() == 1 {
        assert(all == lines[0]);
    } else if lines.len() > 1 {
        let front = text::join(lines.drop_last(), " "@);
        lemma_joined_lines(lines.drop_last());
        if all.contains('\n') {
            let i = choose|i: int| 0 <= i < all.len() && all[i] == '\n';
            if i < front.len() {
                assert(front[i] == '\n');
            } else if i > front.len() {
                assert(lines.last()[i - front.len() - 1] == '\n');
            }
        }
        assert(all[0] == front[0]);
    }
}

/// What is taken for noise: what is less than two bytes long, white space at the ends aside,
/// and what holds one of seven phrases, whole. Nothing else is.
pub proof fn law_noise(s: Seq<char>)
    ensures
        is_noise(s) <==> ({
            let t = text::trim(s);
            ||| vstd::utf8::encode_utf8(t).len() < 2
            ||| exists|a: Seq<char>, b: Seq<char>| t == #[trigger] (a + "[BLANK_AUDIO]"@ + b)
            ||| exists|a: Seq<char>, b: Seq<char>| t == #[trigger] (a + "(無音)"@ + b)
            ||| exists|a: Seq<char>, b: Seq<char>| t == #[trigger] (a + "(silence)"@ + b)
            ||| exists|a: Seq<char>, b: Seq<char>|
                t == #[trigger] (a + "ご視聴ありがとうございました"@ + b)
            ||| exists|a: Seq<char>, b: Seq<char>|
                t == #[trigger] (a + "字幕は自動生成されました"@ + b)
            ||| exists|a: Seq<char>, b: Seq<char>| t == #[trigger] (a + "チャンネル登録"@ + b)
            ||| exists|a: Seq<char>, b: Seq<char>|
                t == #[trigger] (a + "ありがとうございました。"@ + b)
        }),
{
    let t = text::trim(s);
    lemma_holds(t, "[BLANK_AUDIO]"@);
    lemma_holds(t, "(無音)"@);
    lemma_holds(t, "(silence)"@);
    lemma_holds(t, "ご視聴ありがとうございました"@);
    lemma_holds(t, "字幕は自動生成されました"@);
    lemma_holds(t, "チャンネル登録"@);
    lemma_holds(t, "ありがとうございました。"@);
}

proof fn lemma_holds(t: Seq<char>, p: Seq<char>)
    ensures
        text::has_text(t, p) <==> exists|a: Seq<char>, b: Seq<char>| t == #[trigger] (a + p + b),
{
    let none: Seq<char> = seq![];
    text::law_text_in_text(none, p, none, t);
    if exists|a: Seq<char>, b: Seq<char>| t == #[trigger] (a + p + b) {
        let (a, b) = choose|a: Seq<char>, b: Seq<char>| t == #[trigger] (a + p + b);
        text::law_text_in_text(a, p, b, t);
    }
}

/// A line more of the recogniser's output: one that is blank, or begins with a bracket, white
/// space aside, adds nothing; any other is added without the white space around it, behind a
/// space where something stands in front.
pub proof fn law_line_more_of_output(output: Seq<char>, line: Seq<char>)
    requires
        output.len() == 0 || output.last() == '\n',
        !line.contains('\n'),
    ensures
        speech_in(Seq::<char>::empty()) == Seq::<char>::empty(),
        speech_in(output + (line + seq!['\n'])) == if text::trim(line).len() == 0 || text::trim(
            line,
        )[0] == '[' {
            speech_in(output)
        } else if speech_in(output).len() == 0 {
            text::trim(line)
        } else {
            speech_in(output) + " "@ + text::trim(line)
        },
        line.len() > 0 ==> speech_in(output + line) == speech_in(output + (line + seq!['\n'])),
{
    let none: Seq<char> = seq![];
    assert(speech_in(none) =~= none);
    let whole = line + seq!['\n'];
    text::lemma_lines_add(output, whole);
    text::lemma_lines_add(output, line);
    let before = text::lines(output);
    // With or without a carriage return at its end, the line is trimmed to the same.
    let kept = if line.len() > 0 && line.last() == '\r' {
        line.drop_last()
    } else {
        line
    };
    assert(whole + none =~= whole);
    if line.len() > 0 && line.last() == '\r' {
        assert(whole =~= kept + seq!['\r', '\n'] + none);
        assert(!kept.contains('\n')) by {
            if kept.contains('\n') {
                let i = choose|i: int| 0 <= i < kept.len() && kept[i] == '\n';
                assert(line[i] == '\n');
            }
        }
        text::law_lines(kept, none);
        lemma_trim_drops_cr(line);
    } else {
        assert(whole =~= line + seq!['\n'] + none);
        text::law_lines(line, none);
    }
    text::law_lines(line, none);
    assert(seq![kept] + text::lines(none) =~= seq![kept]);
    assert(before + seq![kept] =~= before.push(kept));
    assert(before.push(kept).drop_last() =~= before);
    assert(before + seq![line] =~= before.push(line));
    assert(before.push(line).drop_last() =~= before);
    assert(text::trim(kept) == text::trim(line));
    let lines = speech_lines(before);
    lemma_lines_have_no_line_feed(output);
    lemma_speech_lines(before);
    lemma_joined_lines(lines);
    let t = text::trim(line);
    assert(lines.push(t).drop_last() =~= lines);
    if lines.len() == 0 {
        assert(lines.push(t) =~= seq![t]);
        assert(speech_in(output) =~= none);
    }
}

proof fn lemma_trim_drops_cr(line: Seq<char>)
    requires
        line.len() > 0,
        line.last() == '\r',
    ensures
        text::trim(line) == text::trim(line.drop_last()),
    decreases line.len(),
{
    let less = line.drop_last();
    if text::is_white_space(line[0]) {
        if line.len() > 1 {
            assert(line.drop_first().drop_last() =~= less.drop_first());
            lemma_trim_drops_cr(line.drop_first());
        } else {
            assert(line.drop_first() =~= seq![]);
            assert(less =~= seq![]);
        }
    } else {
        assert(text::trim_start(line) == line);
        assert(less.len() == 0 || less[0] == line[0]);
        assert(text::trim_start(less) == less);
    }
}

/// The voice of the bot is found at the first speaker who has its name and a first style, and
/// nowhere else.
pub proof fn law_first_voice_of_the_name(speakers: Seq<SpeakerView>)
    ensures
        match himari_id(speakers) {
            Some(id) => exists|i: int|
                0 <= i < speakers.len() && (#[trigger] speakers[i]).name == Some("冥鳴ひまり"@)
                    && speakers[i].first_style is Some && id == speakers[i].first_style->0
                    % 0x1_0000_0000 && forall|j: int|
                    0 <= j < i ==> (#[trigger] speakers[j]).name != Some("冥鳴ひまり"@)
                        || speakers[j].first_style is None,
            None => forall|j: int|
                0 <= j < speakers.len() ==> (#[trigger] speakers[j]).name != Some(
                    "冥鳴ひまり"@,
                ) || speakers[j].first_style is None,
        },
    decreases speakers.len(),
{
    if speakers.len() > 0 {
        let rest = speakers.drop_first();
        law_first_voice_of_the_name(rest);
        let here = speakers[0].name == Some("冥鳴ひまり"@) && speakers[0].first_style is Some;
        if !here {
            match himari_id(rest) {
                Some(id) => {
                    let i = choose|i: int|
                        0 <= i < rest.len() && (#[trigger] rest[i]).name == Some("冥鳴ひまり"@)
                            && rest[i].first_style is Some && id == rest[i].first_style->0
                            % 0x1_0000_0000 && forall|j: int|
                            0 <= j < i ==> (#[trigger] rest[j]).name != Some("冥鳴ひまり"@)
                                || rest[j].first_style is None;
                    assert(speakers[i + 1] == rest[i]);
                    assert forall|j: int| 0 <= j < i + 1 implies (#[trigger] speakers[j]).name
                        != Some("冥鳴ひまり"@) || speakers[j].first_style is None by {
                        if j > 0 {
                            assert(speakers[j] == rest[j - 1]);
                        }
                    }
                },
                None => {
                    assert forall|j: int| 0 <= j < speakers.len() implies (
                    #[trigger] speakers[j]).name != Some("冥鳴ひまり"@)
                        || speakers[j].first_style is None by {
                        if j > 0 {
                            assert(speakers[j] == rest[j - 1]);
                        }
                    }
                },
            }
        }
    }
}

/// What is read of the list of speakers: of each its name, and the number of its first style;
/// nothing where the body is no list.
pub proof fn law_list_of_speakers(items: Seq<Json>, other: Json)
    requires
        !(other is Array),
    ensures
        speakers_in(None) is None,
        speakers_in(Some(other)) is None,
        speakers_in(Some(Json::Array(items))) is Some,
        speakers_in(Some(Json::Array(items)))->0.len() == items.len(),
        forall|i: int|
            0 <= i < items.len() ==> {
                let s = #[trigger] speakers_in(Some(Json::Array(items)))->0[i];
                &&& s.name == items[i].member("name"@).text()
                &&& s.first_style == items[i].member("styles"@).item(0).member("id"@).unsigned()
            },
{
}

/// The file of an utterance is named by its sound source.
pub proof fn law_wav_path(ssrc: u32)
    ensures
        wav_in_path(ssrc) == "/tmp/yachiyo_in_"@ + number::decimal(ssrc as nat) + ".wav"@,
        WAV_SAMPLE_RATE == 16000,
        WAV_CHANNELS == 1,
        WAV_BITS_PER_SAMPLE == 16,
{
}

/// The voice that is set is a number; what is listed is found in a reply that was a success.
pub proof fn law_voice_settings(setting: Option<String>, bytes: Vec<u8>, reply: Reply)
    requires
        !(reply is Accepted),
    ensures
        set_id(setting) == match setting {
            Some(s) => number::parsed_u32(s@),
            None => None,
        },
        listed_id(reply) is None,
        listed_id(Reply::Accepted(bytes)) == match speakers_in(json::json_parsed_bytes(bytes@)) {
            Some(speakers) => himari_id(speakers),
            None => None,
        },
{
}

}
