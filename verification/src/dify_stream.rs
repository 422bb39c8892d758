//! The answer of the model, as it comes in over a stream of server-sent events.

use vstd::prelude::*;
use vstd::slice::slice_subrange;
use vstd::string::StringExecFns;

use crate::json;
use crate::json::member_text;
use crate::json::parse_json;
use crate::json::Json;
use crate::text;
use crate::text::chars_of;
use crate::text::lines_of;
use crate::text::same_text;
use crate::text::strip_prefix_text;
use crate::text::text_of;
use crate::text::trim_text;

verus! {

/// The text that `String::from_utf8_lossy` reads from bytes.
pub uninterp spec fn utf8_lossy(bytes: Seq<u8>) -> Seq<char>;

/// Calls `String::from_utf8_lossy`. Bytes that are UTF-8 give the text that they encode;
/// what others give, with a replacement character where they are not, is not said here
/// but depends on the bytes alone.
#[verifier::external_body]
pub(crate) fn text_from_utf8_lossy(bytes: &[u8]) -> (r: String)
    ensures
        r@ == utf8_lossy(bytes@),
        vstd::utf8::valid_utf8(bytes@) ==> r@ == vstd::utf8::decode_utf8(bytes@),
{
    String::from_utf8_lossy(bytes).into_owned()
}

/// Whether bytes that are UTF-8 give the text that they encode.
pub open spec fn reads_utf8(bytes: Seq<u8>) -> bool {
    vstd::utf8::valid_utf8(bytes) ==> utf8_lossy(bytes) == vstd::utf8::decode_utf8(bytes)
}

/// What the model answered.
#[derive(Debug)]
pub struct DifyStreamResult {
    pub answer: String,
    pub conversation_id: String,
}

/// What has been gathered from the events so far.
pub ghost struct Gathered {
    pub answer: Seq<char>,
    pub conversation: Seq<char>,
}

/// What the reading of the stream takes from an event: those of its members that are texts.
pub struct StreamEvent {
    pub event: Option<String>,
    pub code: Option<String>,
    pub message: Option<String>,
    pub answer: Option<String>,
    pub conversation_id: Option<String>,
}

/// The same as mathematical values.
pub ghost struct Event {
    pub event: Option<Seq<char>>,
    pub code: Option<Seq<char>>,
    pub message: Option<Seq<char>>,
    pub answer: Option<Seq<char>>,
    pub conversation: Option<Seq<char>>,
}

impl View for StreamEvent {
    type V = Event;

    open spec fn view(&self) -> Event {
        Event {
            event: text::opt_text(self.event),
            code: text::opt_text(self.code),
            message: text::opt_text(self.message),
            answer: text::opt_text(self.answer),
            conversation: text::opt_text(self.conversation_id),
        }
    }
}

/// The event that a document is.
pub open spec fn event_of(body: Json) -> Event {
    Event {
        event: body.member("event"@).text(),
        code: body.member("code"@).text(),
        message: body.member("message"@).text(),
        answer: body.member("answer"@).text(),
        conversation: body.member("conversation_id"@).text(),
    }
}

/// Why the service gave up.
pub open spec fn error_text(e: Event) -> Seq<char> {
    let code = match e.code {
        Some(s) => s,
        None => "unknown"@,
    };
    let message = match e.message {
        Some(s) => s,
        None => "unknown error"@,
    };
    "Dify error event: code="@ + code + " message="@ + message
}

impl Gathered {
    pub open spec fn start() -> Gathered {
        Gathered { answer: seq![], conversation: seq![] }
    }

    /// What one event adds: a piece of the answer, and the conversation where it is named.
    /// An error event ends all.
    pub open spec fn event(self, e: Event) -> Result<Gathered, Seq<char>> {
        if e.event == Some("error"@) {
            Err(error_text(e))
        } else {
            Ok(
                Gathered {
                    answer: match e.answer {
                        Some(s) => self.answer + s,
                        None => self.answer,
                    },
                    conversation: match e.conversation {
                        Some(s) => if s.len() > 0 {
                            s
                        } else {
                            self.conversation
                        },
                        None => self.conversation,
                    },
                },
            )
        }
    }

    /// What the lines of a piece of the stream add. Lines that are no data, and data that
    /// is no JSON, are passed over; `[DONE]` ends the piece.
    pub open spec fn lines(self, lines: Seq<Seq<char>>) -> Result<Gathered, Seq<char>>
        decreases lines.len(),
    {
        if lines.len() == 0 {
            Ok(self)
        } else {
            let rest = lines.drop_first();
            match text::after_prefix(text::trim(lines[0]), "data: "@) {
                None => self.lines(rest),
                Some(data) => if data == "[DONE]"@ {
                    Ok(self)
                } else {
                    match json::json_parsed(data) {
                        None => self.lines(rest),
                        Some(body) => match self.event(event_of(body)) {
                            Ok(next) => next.lines(rest),
                            Err(why) => Err(why),
                        },
                    }
                },
            }
        }
    }
}

/// What follows the last line feed of a text; all of it where there is none.
pub open spec fn open_line(s: Seq<char>) -> Seq<char>
    decreases s.len(),
{
    if s.len() == 0 || s.last() == '\n' {
        seq![]
    } else {
        open_line(s.drop_last()).push(s.last())
    }
}

/// The answer while it comes in.
#[derive(Debug)]
pub struct DifyStream {
    answer: String,
    conversation_id: String,
    buffer: String,
}

impl DifyStream {
    /// What the events gave so far.
    pub closed spec fn gathered(&self) -> Gathered {
        Gathered { answer: self.answer@, conversation: self.conversation_id@ }
    }

    /// The line at the end of the stream that no line feed has ended yet.
    pub closed spec fn pending(&self) -> Seq<char> {
        self.buffer@
    }

    /// A stream of which nothing has come yet.
    pub fn new() -> (r: DifyStream)
        ensures
            r.gathered() == Gathered::start(),
            r.pending() == Seq::<char>::empty(),
    {
        DifyStream { answer: String::new(), conversation_id: String::new(), buffer: String::new() }
    }

    /// Takes in the next piece of the stream.
    pub fn feed(&mut self, bytes: &[u8]) -> (r: Result<(), String>)
        ensures
            ({
                let all = old(self).pending() + utf8_lossy(bytes@);
                match (r, old(self).gathered().lines(text::lines(all))) {
                    (Ok(_), Ok(g)) => final(self).gathered() == g && final(self).pending()
                        == open_line(all),
                    (Err(e), Err(why)) => e@ == why,
                    _ => false,
                }
            }),
            reads_utf8(bytes@),
    {
        let piece = text_from_utf8_lossy(bytes);
        self.feed_text(piece.as_str())
    }

    /// Takes in the text of the next piece. All lines that are there are read, also the one
    /// that is not ended yet; that one stays, and is read again once more has come.
    fn feed_text(&mut self, piece: &str) -> (r: Result<(), String>)
        ensures
            ({
                let all = old(self).pending() + piece@;
                match (r, old(self).gathered().lines(text::lines(all))) {
                    (Ok(_), Ok(g)) => final(self).gathered() == g && final(self).pending()
                        == open_line(all),
                    (Err(e), Err(why)) => e@ == why,
                    _ => false,
                }
            }),
    {
        self.buffer.append(piece);
        let ghost all = self.buffer@;
        let ghost start = self.gathered();
        let found = lines_of(self.buffer.as_str());
        let ghost lines = text::texts(found@);
        let mut i: usize = 0;
        let mut done = false;
        assert(lines.skip(0) =~= lines);
        while i < found.len() && !done
            invariant
                lines == text::texts(found@),
                start == old(self).gathered(),
                all == old(self).pending() + piece@,
                lines == text::lines(all),
                i <= found@.len(),
                self.buffer@ == all,
                done ==> start.lines(lines) == Ok::<Gathered, Seq<char>>(self.gathered()),
                !done ==> start.lines(lines) == self.gathered().lines(lines.skip(i as int)),
            ensures
                self.buffer@ == all,
                start.lines(lines) == Ok::<Gathered, Seq<char>>(self.gathered()),
            decreases found@.len() - i,
        {
            let ghost here = lines.skip(i as int);
            assert(here[0] == found@[i as int]@);
            assert(here.drop_first() =~= lines.skip(i + 1));
            let line = trim_text(found[i].as_str());
            match strip_prefix_text(line.as_str(), "data: ") {
                None => {},
                Some(data) => {
                    if same_text(data.as_str(), "[DONE]") {
                        done = true;
                    } else {
                        match parse_json(data.as_str()) {
                            Err(_) => {},
                            Ok(body) => {
                                match self.take_event(&read_event(&body)) {
                                    Ok(_) => {},
                                    Err(e) => {
                                        return Err(e);
                                    },
                                }
                            },
                        }
                    }
                },
            }
            i += 1;
        }
        assert(self.gathered().lines(lines.skip(lines.len() as int)) == Ok::<Gathered, Seq<char>>(
            self.gathered(),
        ));
        self.buffer = rest_of(self.buffer.as_str());
        Ok(())
    }

    /// Takes in one event.
    pub fn take_event(&mut self, e: &StreamEvent) -> (r: Result<(), String>)
        ensures
            match (r, old(self).gathered().event(e@)) {
                (Ok(_), Ok(g)) => final(self).gathered() == g,
                (Err(why), Err(text)) => why@ == text && final(self).gathered()
                    == old(self).gathered(),
                _ => false,
            },
            final(self).pending() == old(self).pending(),
    {
        match &e.event {
            Some(event) => {
                if same_text(event.as_str(), "error") {
                    return Err(error_message(e));
                }
            },
            None => {},
        }
        match &e.answer {
            Some(answer) => {
                self.answer.append(answer.as_str());
            },
            None => {},
        }
        match &e.conversation_id {
            Some(id) => {
                if !id.as_str().is_empty() {
                    self.conversation_id = String::from_str(id.as_str());
                }
            },
            None => {},
        }
        Ok(())
    }

    /// What the model answered, once the stream has ended.
    pub fn finish(self) -> (r: DifyStreamResult)
        ensures
            r.answer@ == self.gathered().answer,
            r.conversation_id@ == self.gathered().conversation,
    {
        DifyStreamResult { answer: self.answer, conversation_id: self.conversation_id }
    }
}

/// The event that a document is.
pub fn read_event(body: &serde_json::Value) -> (r: StreamEvent)
    ensures
        r@ == event_of(json::json_of(*body)),
{
    StreamEvent {
        event: member_text(body, "event"),
        code: member_text(body, "code"),
        message: member_text(body, "message"),
        answer: member_text(body, "answer"),
        conversation_id: member_text(body, "conversation_id"),
    }
}

/// The texts of some pieces.
pub open spec fn piece_texts(pieces: Seq<Vec<u8>>) -> Seq<Seq<char>> {
    pieces.map_values(|piece: Vec<u8>| utf8_lossy(piece@))
}

/// What a stream gives that comes in pieces, where `pending` waits for its line feed.
pub open spec fn read_pieces(start: Gathered, pending: Seq<char>, pieces: Seq<Seq<char>>) -> Result<
    Gathered,
    Seq<char>,
>
    decreases pieces.len(),
{
    if pieces.len() == 0 {
        Ok(start)
    } else {
        let all = pending + pieces[0];
        match start.lines(text::lines(all)) {
            Ok(next) => read_pieces(next, open_line(all), pieces.drop_first()),
            Err(why) => Err(why),
        }
    }
}

/// Reads a stream that has come in, piece by piece, to its end or to an error event.
pub fn consume_dify_stream(pieces: &Vec<Vec<u8>>) -> (r: Result<DifyStreamResult, String>)
    ensures
        match (r, read_pieces(Gathered::start(), seq![], piece_texts(pieces@))) {
            (Ok(result), Ok(g)) => result.answer@ == g.answer && result.conversation_id@
                == g.conversation,
            (Err(e), Err(why)) => e@ == why,
            _ => false,
        },
        forall|k: int| 0 <= k < pieces@.len() ==> reads_utf8((#[trigger] pieces@[k])@),
{
    let texts = texts_of(pieces);
    let mut stream = DifyStream::new();
    let ghost all = piece_texts(pieces@);
    let ghost whole = read_pieces(Gathered::start(), seq![], all);
    let mut i: usize = 0;
    assert(all.skip(0) =~= all);
    while i < texts.len()
        invariant
            i <= texts@.len(),
            all == text::texts(texts@),
            all == piece_texts(pieces@),
            whole == read_pieces(Gathered::start(), seq![], all),
            whole == read_pieces(stream.gathered(), stream.pending(), all.skip(i as int)),
            forall|k: int| 0 <= k < pieces@.len() ==> reads_utf8((#[trigger] pieces@[k])@),
        decreases texts@.len() - i,
    {
        let ghost rest = all.skip(i as int);
        assert(rest[0] == texts@[i as int]@);
        assert(rest.drop_first() =~= all.skip(i + 1));
        match stream.feed_text(texts[i].as_str()) {
            Ok(_) => {},
            Err(e) => {
                return Err(e);
            },
        }
        i += 1;
    }
    Ok(stream.finish())
}

/// The texts of some pieces.
fn texts_of(pieces: &Vec<Vec<u8>>) -> (r: Vec<String>)
    ensures
        text::texts(r@) == piece_texts(pieces@),
        forall|k: int| 0 <= k < pieces@.len() ==> reads_utf8((#[trigger] pieces@[k])@),
{
    let mut r: Vec<String> = Vec::new();
    let mut i: usize = 0;
    while i < pieces.len()
        invariant
            i <= pieces@.len(),
            text::texts(r@) =~= piece_texts(pieces@).take(i as int),
            forall|k: int| 0 <= k < i ==> reads_utf8((#[trigger] pieces@[k])@),
        decreases pieces@.len() - i,
    {
        let ghost so_far = text::texts(r@);
        let piece = text_from_utf8_lossy(pieces[i].as_slice());
        let ghost t = piece@;
        r.push(piece);
        assert(text::texts(r@) =~= so_far.push(t));
        i += 1;
    }
    r
}

/// Why the service gave up.
fn error_message(e: &StreamEvent) -> (r: String)
    ensures
        r@ == error_text(e@),
{
    let mut why = String::from_str("Dify error event: code=");
    match &e.code {
        Some(code) => why.append(code.as_str()),
        None => why.append("unknown"),
    }
    why.append(" message=");
    match &e.message {
        Some(message) => why.append(message.as_str()),
        None => why.append("unknown error"),
    }
    why
}

/// What follows the last line feed of a text.
fn rest_of(s: &str) -> (r: String)
    ensures
        r@ == open_line(s@),
{
    let x = chars_of(s);
    let n: usize = x.len();
    let mut from: usize = n;
    assert(s@.take(n as int) =~= s@);
    assert(open_line(s@) =~= open_line(s@) + s@.skip(n as int));
    while from > 0 && x[from - 1] != '\n'
        invariant
            x@ == s@,
            n == x@.len(),
            from <= n,
            open_line(s@) == open_line(s@.take(from as int)) + s@.skip(from as int),
        decreases from,
    {
        let ghost part = s@.take(from as int);
        assert(part.drop_last() =~= s@.take(from - 1));
        assert(open_line(part) + s@.skip(from as int) =~= open_line(part.drop_last()) + s@.skip(
            from - 1,
        ));
        from -= 1;
    }
    text_of(slice_subrange(x.as_slice(), from, n))
}

/// An answer only grows, and a conversation that was named stays named.
pub proof fn law_answer_only_grows(start: Gathered, lines: Seq<Seq<char>>)
    ensures
        match start.lines(lines) {
            Ok(end) => start.answer.is_prefix_of(end.answer) && (start.conversation.len() > 0
                ==> end.conversation.len() > 0),
            Err(_) => true,
        },
    decreases lines.len(),
{
    if lines.len() > 0 {
        let rest = lines.drop_first();
        law_answer_only_grows(start, rest);
        match text::after_prefix(text::trim(lines[0]), "data: "@) {
            Some(data) => {
                match json::json_parsed(data) {
                    Some(body) => {
                        match start.event(event_of(body)) {
                            Ok(next) => {
                                law_answer_only_grows(next, rest);
                            },
                            Err(_) => {},
                        }
                    },
                    None => {},
                }
            },
            None => {},
        }
    }
}

/// What waits for its line feed holds none itself, and ends the text that came.
pub proof fn law_pending_is_one_line(s: Seq<char>)
    ensures
        !open_line(s).contains('\n'),
        open_line(s).is_suffix_of(s),
    decreases s.len(),
{
    if s.len() > 0 && s.last() != '\n' {
        law_pending_is_one_line(s.drop_last());
        let front = open_line(s.drop_last());
        let all = open_line(s);
        assert forall|i: int| 0 <= i < all.len() implies all[i] != '\n' by {
            if i < front.len() {
                assert(front.contains(front[i]));
            }
        }
        assert(s.skip(s.len() - all.len()) =~= all);
    }
}

/// Whether a line ends the reading of a piece.
pub open spec fn is_done(line: Seq<char>) -> bool {
    text::after_prefix(text::trim(line), "data: "@) == Some("[DONE]"@)
}

/// Whether a line adds nothing to what was gathered, and goes on.
pub open spec fn adds_nothing(line: Seq<char>) -> bool {
    match text::after_prefix(text::trim(line), "data: "@) {
        None => true,
        Some(data) => match json::json_parsed(data) {
            None => true,
            Some(body) => {
                let e = event_of(body);
                &&& e.event != Some("error"@)
                &&& e.answer is None || e.answer->0.len() == 0
                &&& e.conversation is None || e.conversation->0.len() == 0
            },
        },
    }
}

/// The lines of a stream that a line feed has ended.
pub open spec fn ended_lines(s: Seq<char>) -> Seq<Seq<char>> {
    text::lines(s.take(s.len() - open_line(s).len()))
}

/// Whether a stream may be cut behind this much of it: no line in front is `[DONE]`, and the
/// line that the cut falls into adds nothing up to there.
pub open spec fn is_clean_cut(a: Seq<char>) -> bool {
    &&& forall|k: int| 0 <= k < ended_lines(a).len() ==> !is_done(#[trigger] ended_lines(a)[k])
    &&& is_done(open_line(a)) || adds_nothing(open_line(a))
}

/// Where a stream is cut makes no difference: two pieces give what they give as one, if the
/// cut is clean.
pub proof fn law_pieces_make_no_difference(start: Gathered, a: Seq<char>, b: Seq<char>)
    requires
        is_clean_cut(a),
    ensures
        start.lines(text::lines(a + b)) == match start.lines(text::lines(a)) {
            Ok(middle) => middle.lines(text::lines(open_line(a) + b)),
            Err(e) => Err(e),
        },
        open_line(open_line(a) + b) == open_line(a + b),
{
    let p = open_line(a);
    let c = a.take(a.len() - p.len());
    lemma_before_open_line(a);
    assert(a =~= c + p);
    text::lemma_lines_add(c, p);
    assert(a + b =~= c + (p + b));
    text::lemma_lines_add(c, p + b);
    let lines_c = text::lines(c);
    assert(lines_c == ended_lines(a));
    lemma_lines_then(start, lines_c, text::lines(p));
    lemma_lines_then(start, lines_c, text::lines(p + b));
    law_pending_is_one_line(a);
    lemma_nothing_added(p);
    lemma_open_line_of_end(c, p + b);
}

/// Some texts, one behind the other.
pub open spec fn concat(pieces: Seq<Seq<char>>) -> Seq<char>
    decreases pieces.len(),
{
    if pieces.len() == 0 {
        seq![]
    } else {
        pieces[0] + concat(pieces.drop_first())
    }
}

/// A stream gives the same however it is cut into pieces, if every cut is clean.
pub proof fn law_stream_is_read_as_a_whole(start: Gathered, pieces: Seq<Seq<char>>)
    requires
        forall|k: int|
            1 <= k < pieces.len() ==> is_clean_cut(concat(#[trigger] pieces.take(k))),
    ensures
        read_pieces(start, seq![], pieces) == start.lines(text::lines(concat(pieces))),
{
    if pieces.len() > 0 {
        let first = pieces[0];
        let rest = pieces.drop_first();
        assert(Seq::<char>::empty() + first =~= first);
        assert(pieces.take(1).drop_first() =~= seq![]);
        assert(concat(pieces.take(1)) =~= first) by {
            assert(pieces.take(1)[0] == first);
            assert(concat(pieces.take(1).drop_first()) =~= seq![]);
        }
        match start.lines(text::lines(first)) {
            Ok(next) => {
                assert forall|k: int| 0 <= k < rest.len() implies is_clean_cut(
                    first + concat(#[trigger] rest.take(k)),
                ) by {
                    assert(pieces.take(k + 1).drop_first() =~= rest.take(k));
                    assert(pieces.take(k + 1)[0] == first);
                    assert(is_clean_cut(concat(pieces.take(k + 1))));
                }
                lemma_rest_is_read(start, first, next, rest);
            },
            Err(_) => {
                if rest.len() > 0 {
                    assert(is_clean_cut(concat(pieces.take(1))));
                    law_pieces_make_no_difference(start, first, concat(rest));
                } else {
                    assert(first + concat(rest) =~= first);
                }
            },
        }
    }
}

proof fn lemma_rest_is_read(
    start: Gathered,
    before: Seq<char>,
    here: Gathered,
    rest: Seq<Seq<char>>,
)
    requires
        start.lines(text::lines(before)) == Ok::<Gathered, Seq<char>>(here),
        forall|k: int|
            0 <= k < rest.len() ==> is_clean_cut(before + concat(#[trigger] rest.take(k))),
    ensures
        read_pieces(here, open_line(before), rest) == start.lines(
            text::lines(before + concat(rest)),
        ),
    decreases rest.len(),
{
    if rest.len() == 0 {
        assert(before + concat(rest) =~= before);
    } else {
        let piece = rest[0];
        let more = rest.drop_first();
        assert(rest.take(0) =~= seq![]);
        assert(before + concat(rest.take(0)) =~= before);
        assert(is_clean_cut(before));
        law_pieces_make_no_difference(start, before, piece);
        let all = before + piece;
        assert(before + concat(rest) =~= all + concat(more));
        assert forall|k: int| 0 <= k < more.len() implies is_clean_cut(
            all + concat(#[trigger] more.take(k)),
        ) by {
            assert(rest.take(k + 1).drop_first() =~= more.take(k));
            assert(rest.take(k + 1)[0] == piece);
            assert(before + concat(rest.take(k + 1)) =~= all + concat(more.take(k)));
            assert(is_clean_cut(before + concat(rest.take(k + 1))));
        }
        match start.lines(text::lines(all)) {
            Ok(next) => {
                lemma_rest_is_read(start, all, next, more);
            },
            Err(_) => {
                if more.len() > 0 {
                    assert(more.take(0) =~= seq![]);
                    assert(all + concat(more.take(0)) =~= all);
                    assert(is_clean_cut(all));
                    law_pieces_make_no_difference(start, all, concat(more));
                } else {
                    assert(all + concat(more) =~= all);
                }
            },
        }
    }
}

/// A line without its line feed that is `[DONE]`, or adds nothing, leaves what was gathered.
proof fn lemma_nothing_added(p: Seq<char>)
    requires
        !p.contains('\n'),
        is_done(p) || adds_nothing(p),
    ensures
        forall|g: Gathered| #[trigger] g.lines(text::lines(p)) == Ok::<Gathered, Seq<char>>(g),
{
    assert forall|g: Gathered| #[trigger] g.lines(text::lines(p)) == Ok::<Gathered, Seq<char>>(
        g,
    ) by {
        if p.len() > 0 {
            text::lemma_find_char(p, '\n');
            assert(text::lines(p) == seq![p]);
            assert(seq![p].drop_first() =~= seq![]);
            assert(g.lines(seq![p].drop_first()) == Ok::<Gathered, Seq<char>>(g));
            match text::after_prefix(text::trim(p), "data: "@) {
                Some(data) => {
                    match json::json_parsed(data) {
                        Some(body) => {
                            let e = event_of(body);
                            if e.event != Some("error"@) {
                                assert(e.answer is Some && e.answer->0.len() == 0 ==> g.answer
                                    + e.answer->0 =~= g.answer);
                            }
                        },
                        None => {},
                    }
                },
                None => {},
            }
        }
    }
}

/// In front of the open line stands a line feed, or nothing.
proof fn lemma_before_open_line(s: Seq<char>)
    ensures
        open_line(s).len() <= s.len(),
        s =~= s.take(s.len() - open_line(s).len()) + open_line(s),
        ({
            let front = s.take(s.len() - open_line(s).len());
            front.len() == 0 || front.last() == '\n'
        }),
    decreases s.len(),
{
    if s.len() > 0 && s.last() != '\n' {
        let t = s.drop_last();
        lemma_before_open_line(t);
        let front = s.take(s.len() - open_line(s).len());
        assert(front =~= t.take(t.len() - open_line(t).len()));
        assert(s =~= t.push(s.last()));
        assert(front + open_line(s) =~= (front + open_line(t)).push(s.last()));
    } else {
        assert(s.take(s.len() as int) =~= s);
    }
}

proof fn lemma_open_line_of_end(c: Seq<char>, s: Seq<char>)
    requires
        c.len() == 0 || c.last() == '\n',
    ensures
        open_line(c + s) == open_line(s),
    decreases s.len(),
{
    if s.len() == 0 {
        assert(c + s =~= c);
    } else if s.last() != '\n' {
        lemma_open_line_of_end(c, s.drop_last());
        assert((c + s).drop_last() =~= c + s.drop_last());
    }
}

/// Lines without `[DONE]` are read before those behind them.
proof fn lemma_lines_then(start: Gathered, a: Seq<Seq<char>>, b: Seq<Seq<char>>)
    requires
        forall|k: int| 0 <= k < a.len() ==> !is_done(#[trigger] a[k]),
    ensures
        start.lines(a + b) == match start.lines(a) {
            Ok(middle) => middle.lines(b),
            Err(e) => Err(e),
        },
    decreases a.len(),
{
    if a.len() == 0 {
        assert(a + b =~= b);
    } else {
        let rest = a.drop_first();
        assert((a + b).drop_first() =~= rest + b);
        assert((a + b)[0] == a[0]);
        assert(!is_done(a[0]));
        assert forall|k: int| 0 <= k < rest.len() implies !is_done(#[trigger] rest[k]) by {
            assert(rest[k] == a[k + 1]);
        }
        lemma_lines_then(start, rest, b);
        match text::after_prefix(text::trim(a[0]), "data: "@) {
            Some(data) => {
                match json::json_parsed(data) {
                    Some(body) => {
                        match start.event(event_of(body)) {
                            Ok(next) => {
                                lemma_lines_then(next, rest, b);
                            },
                            Err(_) => {},
                        }
                    },
                    None => {},
                }
            },
            None => {},
        }
    }
}

/// What one event does. An error event is told as an error, with its code and message or with
/// words in their place. Any other event adds its text, character for character, behind the
/// answer, and its conversation, where it names one, takes the place of the one before.
pub proof fn law_event(g: Gathered, body: Json)
    ensures
        ({
            let code = match body.member("code"@).text() {
                Some(s) => s,
                None => "unknown"@,
            };
            let message = match body.member("message"@).text() {
                Some(s) => s,
                None => "unknown error"@,
            };
            body.member("event"@).text() == Some("error"@) ==> g.event(event_of(body)) == Err::<
                Gathered,
                Seq<char>,
            >("Dify error event: code="@ + code + " message="@ + message)
        }),
        body.member("event"@).text() != Some("error"@) ==> {
            let r = g.event(event_of(body));
            &&& r is Ok
            &&& match body.member("answer"@).text() {
                Some(s) => r->Ok_0.answer == g.answer + s && r->Ok_0.answer.len() == g.answer.len()
                    + s.len(),
                None => r->Ok_0.answer == g.answer,
            }
            &&& match body.member("conversation_id"@).text() {
                Some(s) => r->Ok_0.conversation == if s.len() > 0 {
                    s
                } else {
                    g.conversation
                },
                None => r->Ok_0.conversation == g.conversation,
            }
        },
{
}

/// The text of an event in a stream.
pub open spec fn event_text(data: Seq<char>) -> Seq<char> {
    "data: "@ + data + "\n\n"@
}

/// The stream of some events.
pub open spec fn stream_of(datas: Seq<Seq<char>>) -> Seq<char> {
    datas.map_values(|d: Seq<char>| event_text(d)).flatten()
}

/// Whether a text is the data of an event that is no error: it is one line, does not end with
/// white space, and is a JSON document that says nothing of an error.
pub open spec fn is_event_data(data: Seq<char>) -> bool {
    &&& data.len() > 0
    &&& !data.contains('\n')
    &&& !text::is_white_space(data.last())
    &&& data != "[DONE]"@
    &&& json::json_parsed(data) is Some
    &&& json::json_parsed(data)->0.member("event"@).text() != Some("error"@)
}

/// The text that the data of an event adds to the answer.
pub open spec fn answer_in(data: Seq<char>) -> Seq<char> {
    match json::json_parsed(data)->0.member("answer"@).text() {
        Some(s) => s,
        None => seq![],
    }
}

/// The conversation that the data of an event names; nothing where it names none.
pub open spec fn conversation_in(data: Seq<char>) -> Seq<char> {
    match json::json_parsed(data)->0.member("conversation_id"@).text() {
        Some(s) => s,
        None => seq![],
    }
}

/// A stream of events gives the texts of all its events as the answer, one behind the other
/// and character for character, and the conversation that the last event names which names
/// one.
pub proof fn law_stream_gives_all_answers(start: Gathered, datas: Seq<Seq<char>>)
    requires
        forall|i: int| 0 <= i < datas.len() ==> is_event_data(#[trigger] datas[i]),
    ensures
        ({
            let r = start.lines(text::lines(stream_of(datas)));
            &&& r is Ok
            &&& r->Ok_0.answer == start.answer + datas.map_values(
                |d: Seq<char>| answer_in(d),
            ).flatten()
            &&& forall|k: int|
                0 <= k < datas.len() && conversation_in(#[trigger] datas[k]).len() > 0 && (forall|
                    j: int,
                |
                    k < j < datas.len() ==> conversation_in(#[trigger] datas[j]).len() == 0)
                    ==> r->Ok_0.conversation == conversation_in(datas[k])
            &&& (forall|j: int|
                0 <= j < datas.len() ==> conversation_in(#[trigger] datas[j]).len() == 0)
                ==> r->Ok_0.conversation == start.conversation
        }),
    decreases datas.len(),
{
    let answers = datas.map_values(|d: Seq<char>| answer_in(d));
    if datas.len() == 0 {
        assert(stream_of(datas) =~= seq![]);
        assert(start.answer + answers.flatten() =~= start.answer);
    } else {
        let d = datas[0];
        let rest = datas.drop_first();
        let f = |d: Seq<char>| event_text(d);
        let g = |d: Seq<char>| answer_in(d);
        assert(datas.map_values(f).drop_first() =~= rest.map_values(f));
        assert(answers.drop_first() =~= rest.map_values(g));
        assert(is_event_data(d));
        lemma_event_first(start, d, stream_of(rest));
        let body = json::json_parsed(d)->0;
        law_event(start, body);
        let next = start.event(event_of(body))->Ok_0;
        assert forall|i: int| 0 <= i < rest.len() implies is_event_data(#[trigger] rest[i]) by {
            assert(rest[i] == datas[i + 1]);
        }
        law_stream_gives_all_answers(next, rest);
        let more = rest.map_values(g).flatten();
        assert(next.answer == start.answer + answer_in(d)) by {
            assert(start.answer + Seq::<char>::empty() =~= start.answer);
        }
        assert(start.answer + (answer_in(d) + more) =~= start.answer + answer_in(d) + more);
        let r = start.lines(text::lines(stream_of(datas)));
        assert forall|k: int|
            0 <= k < datas.len() && conversation_in(#[trigger] datas[k]).len() > 0 && (forall|
                j: int,
            |
                k < j < datas.len() ==> conversation_in(#[trigger] datas[j]).len()
                    == 0) implies r->Ok_0.conversation == conversation_in(datas[k]) by {
            assert forall|j: int| k <= j < rest.len() implies conversation_in(
                #[trigger] rest[j],
            ).len() == 0 by {
                assert(rest[j] == datas[j + 1]);
            }
            if k > 0 {
                assert(rest[k - 1] == datas[k]);
            }
        }
        if forall|j: int|
            0 <= j < datas.len() ==> conversation_in(#[trigger] datas[j]).len() == 0 {
            assert(conversation_in(datas[0]).len() == 0);
            assert forall|j: int| 0 <= j < rest.len() implies conversation_in(
                #[trigger] rest[j],
            ).len() == 0 by {
                assert(rest[j] == datas[j + 1]);
            }
        }
    }
}

/// A stream ends with its first error event, whatever comes behind it.
pub proof fn law_error_event_ends_the_stream(
    start: Gathered,
    datas: Seq<Seq<char>>,
    data: Seq<char>,
    behind: Seq<char>,
)
    requires
        forall|i: int| 0 <= i < datas.len() ==> is_event_data(#[trigger] datas[i]),
        data.len() > 0,
        !data.contains('\n'),
        !text::is_white_space(data.last()),
        data != "[DONE]"@,
        json::json_parsed(data) is Some,
        json::json_parsed(data)->0.member("event"@).text() == Some("error"@),
    ensures
        ({
            let body = json::json_parsed(data)->0;
            let code = match body.member("code"@).text() {
                Some(s) => s,
                None => "unknown"@,
            };
            let message = match body.member("message"@).text() {
                Some(s) => s,
                None => "unknown error"@,
            };
            start.lines(text::lines(stream_of(datas) + (event_text(data) + behind))) == Err::<
                Gathered,
                Seq<char>,
            >("Dify error event: code="@ + code + " message="@ + message)
        }),
    decreases datas.len(),
{
    let end = event_text(data) + behind;
    if datas.len() == 0 {
        assert(stream_of(datas) + end =~= end);
        lemma_event_line(data, behind);
        law_event(start, json::json_parsed(data)->0);
    } else {
        let d = datas[0];
        let rest = datas.drop_first();
        let f = |d: Seq<char>| event_text(d);
        assert(datas.map_values(f).drop_first() =~= rest.map_values(f));
        assert(is_event_data(d));
        assert(stream_of(datas) + end =~= event_text(d) + (stream_of(rest) + end));
        lemma_event_first(start, d, stream_of(rest) + end);
        let next = start.event(event_of(json::json_parsed(d)->0))->Ok_0;
        assert forall|i: int| 0 <= i < rest.len() implies is_event_data(#[trigger] rest[i]) by {
            assert(rest[i] == datas[i + 1]);
        }
        law_error_event_ends_the_stream(next, rest, data, behind);
    }
}

/// The lines that the text of an event begins with.
proof fn lemma_event_line(data: Seq<char>, behind: Seq<char>)
    requires
        data.len() > 0,
        !data.contains('\n'),
        !text::is_white_space(data.last()),
    ensures
        text::lines(event_text(data) + behind) == seq!["data: "@ + data] + (seq![
            Seq::<char>::empty(),
        ] + text::lines(behind)),
        text::after_prefix(text::trim("data: "@ + data), "data: "@) == Some(data),
        text::after_prefix(text::trim(Seq::<char>::empty()), "data: "@) is None,
{
    reveal_strlit("data: ");
    reveal_strlit("\n\n");
    let line = "data: "@ + data;
    let none: Seq<char> = seq![];
    let lf: Seq<char> = seq!['\n'];
    assert(!line.contains('\n')) by {
        if line.contains('\n') {
            let i = choose|i: int| 0 <= i < line.len() && line[i] == '\n';
            if i >= 6 {
                assert(data[i - 6] == '\n');
            }
        }
    }
    assert(line.last() == data.last());
    let second = none + lf + behind;
    assert(event_text(data) + behind =~= line + lf + second);
    text::law_lines(line, second);
    text::law_lines(none, behind);
    assert(text::trim_start(line) == line);
    assert(text::trim_end(line) == line);
    text::law_text_in_text(seq![], "data: "@, data, line);
    assert(text::trim(none) == none);
}

proof fn lemma_event_first(start: Gathered, data: Seq<char>, behind: Seq<char>)
    requires
        is_event_data(data),
    ensures
        ({
            let r = start.event(event_of(json::json_parsed(data)->0));
            &&& r is Ok
            &&& start.lines(text::lines(event_text(data) + behind)) == r->Ok_0.lines(
                text::lines(behind),
            )
        }),
{
    lemma_event_line(data, behind);
    law_event(start, json::json_parsed(data)->0);
    let none: Seq<char> = seq![];
    let line = "data: "@ + data;
    let tail = seq![none] + text::lines(behind);
    let all = seq![line] + tail;
    assert(all.drop_first() =~= tail);
    assert(tail.drop_first() =~= text::lines(behind));
    assert(tail[0] == none);
    let next = start.event(event_of(json::json_parsed(data)->0))->Ok_0;
    assert(next.lines(tail) == next.lines(text::lines(behind)));
}

/// A line that does not begin with `data: `, white space aside, and one whose data is no JSON
/// document, are passed over; `[DONE]` ends the piece that it stands in.
pub proof fn law_lines_without_events(start: Gathered, line: Seq<char>, rest: Seq<Seq<char>>)
    ensures
        !text::has_prefix(text::trim(line), "data: "@) ==> start.lines(seq![line] + rest)
            == start.lines(rest),
        text::has_prefix(text::trim(line), "data: "@) && text::trim(line).skip(6) != "[DONE]"@
            && json::json_parsed(text::trim(line).skip(6)) is None ==> start.lines(
            seq![line] + rest,
        ) == start.lines(rest),
        text::trim(line) == "data: [DONE]"@ ==> start.lines(seq![line] + rest) == Ok::<
            Gathered,
            Seq<char>,
        >(start),
{
    reveal_strlit("data: ");
    reveal_strlit("[DONE]");
    reveal_strlit("data: [DONE]");
    let all = seq![line] + rest;
    assert(all.drop_first() =~= rest);
    if text::trim(line) == "data: [DONE]"@ {
        let t = text::trim(line);
        assert(t =~= "data: "@ + "[DONE]"@);
        text::law_text_in_text(seq![], "data: "@, "[DONE]"@, t);
    }
}

/// What waits for its line feed is what stands behind the last line feed of all that came.
pub proof fn law_pending_is_the_last_line(a: Seq<char>, b: Seq<char>)
    requires
        !b.contains('\n'),
    ensures
        open_line(b) == b,
        open_line(a + seq!['\n'] + b) == b,
    decreases b.len(),
{
    let lf: Seq<char> = seq!['\n'];
    if b.len() == 0 {
        assert(a + lf + b =~= a.push('\n'));
    } else {
        let front = b.drop_last();
        assert(b.contains(b.last()));
        assert forall|i: int| 0 <= i < front.len() implies front[i] != '\n' by {
            assert(b.contains(b[i]));
        }
        law_pending_is_the_last_line(a, front);
        assert((a + lf + b).drop_last() =~= a + lf + front);
        assert(front.push(b.last()) =~= b);
    }
}

/// A stream that came in pieces is read piece by piece, each behind what waits of the one
/// before.
pub proof fn law_pieces_are_read_in_turn(
    start: Gathered,
    pending: Seq<char>,
    piece: Seq<char>,
    rest: Seq<Seq<char>>,
)
    ensures
        read_pieces(start, pending, seq![]) == Ok::<Gathered, Seq<char>>(start),
        read_pieces(start, pending, seq![piece] + rest) == match start.lines(
            text::lines(pending + piece),
        ) {
            Ok(next) => read_pieces(next, open_line(pending + piece), rest),
            Err(why) => Err(why),
        },
        Gathered::start() == (Gathered { answer: seq![], conversation: seq![] }),
{
    assert((seq![piece] + rest).drop_first() =~= rest);
}

/// A line of data is read without the white space around it: it does what its event does.
pub proof fn law_line_of_data(
    start: Gathered,
    line: Seq<char>,
    data: Seq<char>,
    rest: Seq<Seq<char>>,
)
    requires
        text::trim(line) == "data: "@ + data,
        data != "[DONE]"@,
        json::json_parsed(data) is Some,
    ensures
        start.lines(seq![line] + rest) == match start.event(
            event_of(json::json_parsed(data)->0),
        ) {
            Ok(next) => next.lines(rest),
            Err(why) => Err(why),
        },
        start.lines(seq![]) == Ok::<Gathered, Seq<char>>(start),
{
    let all = seq![line] + rest;
    assert(all.drop_first() =~= rest);
    text::law_text_in_text(seq![], "data: "@, data, text::trim(line));
}

}
