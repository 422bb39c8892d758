//! The conversation log: a Markdown file to which each exchange is appended, and from
//! which the web page reads the last ones.

use vstd::prelude::*;
use vstd::slice::slice_subrange;
use vstd::string::StringExecFns;

use crate::clock;
use crate::clock::LocalTime;
use crate::text;
use crate::text::begins_with;
use crate::text::chars_of;
use crate::text::find_char_from;
use crate::text::finishes_with;
use crate::text::join_texts;
use crate::text::lines_of;
use crate::text::split_chars;
use crate::text::strip_prefix_text;
use crate::text::text_of;
use crate::text::trim_end_texts;
use crate::text::trim_parts;
use crate::text::trim_start_of;
use crate::text::trim_start_texts;

verus! {

// ---------------------------------------------------------------------------
// Writing
// ---------------------------------------------------------------------------
/// The text of one exchange in the log.
pub open spec fn entry_text(time: Seq<char>, user: Seq<char>, bot: Seq<char>) -> Seq<char> {
    "\n## ["@ + time + "] の会話\n- shunrin824: "@ + user + "\n- 月見ヤチヨ: "@ + bot + "\n"@
}

/// Puts an exchange behind a log. The answer is the whole answer, with its `<think>` blocks.
pub fn append_chat_log(log: &mut String, t: &LocalTime, user_input: &str, bot_reply: &str)
    requires
        t.valid(),
    ensures
        final(log)@ == old(log)@ + entry_text(
            clock::formatted(*t, "%Y-%m-%d %H:%M:%S"@),
            user_input@,
            bot_reply@,
        ),
        final(log)@ == old(log)@ + ("\n## ["@ + clock::formatted(*t, "%Y-%m-%d %H:%M:%S"@)
            + "] の会話\n- shunrin824: "@ + user_input@ + "\n- 月見ヤチヨ: "@ + bot_reply@ + "\n"@),
{
    let time = clock::log_time(t);
    let mut entry = String::from_str("\n## [");
    entry.append(time.as_str());
    entry.append("] の会話\n- shunrin824: ");
    entry.append(user_input);
    entry.append("\n- 月見ヤチヨ: ");
    entry.append(bot_reply);
    entry.append("\n");
    log.append(entry.as_str());
}

/// What the log holds of a message with images: their names in front of the message.
pub open spec fn tagged_message(images: Seq<Seq<char>>, message: Seq<char>) -> Seq<char> {
    if images.len() == 0 {
        message
    } else {
        "[画像: "@ + text::join(images, "|"@) + "] "@ + message
    }
}

/// The message as the log holds it.
pub fn user_log_message(images: &Vec<String>, message: &str) -> (r: String)
    ensures
        r@ == tagged_message(text::texts(images@), message@),
        images@.len() == 0 ==> r@ == message@,
        images@.len() > 0 ==> r@ == "[画像: "@ + text::join(text::texts(images@), "|"@) + "] "@
            + message@,
{
    let mut r = String::new();
    if images.is_empty() {
        r.append(message);
    } else {
        let names = join_texts(images, "|");
        r.append("[画像: ");
        r.append(names.as_str());
        r.append("] ");
        r.append(message);
    }
    r
}

// ---------------------------------------------------------------------------
// Reading
// ---------------------------------------------------------------------------
/// The image names and the text of a message in the log.
pub open spec fn parsed_message(raw: Seq<char>) -> (Seq<Seq<char>>, Seq<char>) {
    match text::after_prefix(raw, "[画像: "@) {
        None => (seq![], raw),
        Some(rest) => match text::find_char(rest, ']') {
            None => (seq![], raw),
            Some(end) => (
                text::trimmed_parts(text::split_on(rest.take(end), '|')),
                text::trim_start_char(rest.skip(end + 1), ' '),
            ),
        },
    }
}

/// Parts a message of the log into image names and text:
/// `[画像: a.webp|b.webp] こんにちは` holds two names, and a message without the tag is
/// text alone.
pub fn parse_user_message(raw: &str) -> (r: (Vec<String>, String))
    ensures
        (text::texts(r.0@), r.1@) == parsed_message(raw@),
{
    match strip_prefix_text(raw, "[画像: ") {
        Some(rest) => {
            let x = chars_of(rest.as_str());
            let chars = x.as_slice();
            assert(rest@.skip(0) =~= rest@);
            match find_char_from(chars, ']', 0) {
                Some(end) => {
                    let inside = slice_subrange(chars, 0, end);
                    assert(inside@ =~= rest@.take(end as int));
                    let n: usize = chars.len();
                    let after = slice_subrange(chars, end + 1, n);
                    assert(after@ =~= rest@.skip(end + 1));
                    let names = split_chars(inside, '|');
                    return (trim_parts(&names), text_of(trim_start_of(after, ' ')));
                },
                None => {},
            }
        },
        None => {},
    }
    let none: Vec<String> = Vec::new();
    assert(text::texts(none@) =~= seq![]);
    (none, String::from_str(raw))
}

/// One exchange, as the log tells it.
#[derive(Debug)]
pub struct ChatEntry {
    pub timestamp: String,
    /// The names of the images that came with the message.
    pub image_filenames: Vec<String>,
    /// The message, without the image names.
    pub user_text: String,
    /// The answer, with its `<think>` blocks.
    pub bot_reply: String,
}

pub ghost struct Entry {
    pub time: Seq<char>,
    pub images: Seq<Seq<char>>,
    pub user: Seq<char>,
    pub bot: Seq<char>,
}

impl View for ChatEntry {
    type V = Entry;

    open spec fn view(&self) -> Entry {
        Entry {
            time: self.timestamp@,
            images: text::texts(self.image_filenames@),
            user: self.user_text@,
            bot: self.bot_reply@,
        }
    }
}

impl Clone for ChatEntry {
    fn clone(&self) -> (r: ChatEntry)
        ensures
            r@ == self@,
    {
        let image_filenames = self.image_filenames.clone();
        assert(text::texts(image_filenames@) =~= text::texts(self.image_filenames@));
        ChatEntry {
            timestamp: self.timestamp.clone(),
            image_filenames,
            user_text: self.user_text.clone(),
            bot_reply: self.bot_reply.clone(),
        }
    }
}

/// The views of a sequence of exchanges.
pub open spec fn entries_view(v: Seq<ChatEntry>) -> Seq<Entry> {
    v.map_values(|e: ChatEntry| e@)
}

/// The first line of an exchange.
pub open spec fn is_header(line: Seq<char>) -> bool {
    text::has_prefix(line, "## ["@) && text::has_suffix(line, "] の会話"@)
}

/// The time that the first line of an exchange gives.
pub open spec fn header_time(line: Seq<char>) -> Seq<char> {
    text::trim_end_text(text::trim_start_text(line, "## ["@), "] の会話"@)
}

/// What is known after some lines of the log: the exchanges that are complete, and the
/// parts of the one that is being read.
pub ghost struct Reading {
    pub entries: Seq<Entry>,
    pub time: Option<Seq<char>>,
    pub images: Seq<Seq<char>>,
    pub user: Option<Seq<char>>,
    pub bot: Option<Seq<char>>,
    /// The lines that follow belong to the answer.
    pub in_bot: bool,
}

impl Reading {
    pub open spec fn start() -> Reading {
        Reading {
            entries: seq![],
            time: None,
            images: seq![],
            user: None,
            bot: None,
            in_bot: false,
        }
    }

    /// The exchanges, where the one that is being read counts once all its parts are there.
    pub open spec fn complete(self) -> Seq<Entry> {
        match (self.time, self.user, self.bot) {
            (Some(time), Some(user), Some(bot)) => self.entries.push(
                Entry { time, images: self.images, user, bot },
            ),
            _ => self.entries,
        }
    }

    pub open spec fn line(self, line: Seq<char>) -> Reading {
        if is_header(line) {
            Reading {
                entries: self.complete(),
                time: Some(header_time(line)),
                images: seq![],
                user: None,
                bot: None,
                in_bot: false,
            }
        } else if text::has_prefix(line, "- shunrin824: "@) {
            let (images, user) = parsed_message(line.skip("- shunrin824: "@.len() as int));
            Reading { images, user: Some(user), in_bot: false, ..self }
        } else if text::has_prefix(line, "- 月見ヤチヨ: "@) {
            Reading {
                bot: Some(line.skip("- 月見ヤチヨ: "@.len() as int)),
                in_bot: true,
                ..self
            }
        } else if self.in_bot {
            match self.bot {
                Some(bot) => Reading { bot: Some(bot + seq!['\n'] + line), ..self },
                None => self,
            }
        } else {
            self
        }
    }

    pub open spec fn lines(self, lines: Seq<Seq<char>>) -> Reading
        decreases lines.len(),
    {
        if lines.len() == 0 {
            self
        } else {
            self.lines(lines.drop_last()).line(lines.last())
        }
    }
}

/// The exchanges of a log.
pub open spec fn log_entries(content: Seq<char>) -> Seq<Entry> {
    Reading::start().lines(text::lines(content)).complete()
}

/// The last `n` items of a sequence, or all where there are fewer.
pub open spec fn last_of<T>(s: Seq<T>, n: int) -> Seq<T> {
    if s.len() > n {
        s.skip(s.len() - n)
    } else {
        s
    }
}

struct LogReader {
    entries: Vec<ChatEntry>,
    time: Option<String>,
    images: Vec<String>,
    user: Option<String>,
    bot: Option<String>,
    in_bot: bool,
}

impl View for LogReader {
    type V = Reading;

    closed spec fn view(&self) -> Reading {
        Reading {
            entries: entries_view(self.entries@),
            time: text::opt_text(self.time),
            images: text::texts(self.images@),
            user: text::opt_text(self.user),
            bot: text::opt_text(self.bot),
            in_bot: self.in_bot,
        }
    }
}

impl LogReader {
    fn new() -> (r: LogReader)
        ensures
            r@ == Reading::start(),
    {
        let r = LogReader {
            entries: Vec::new(),
            time: None,
            images: Vec::new(),
            user: None,
            bot: None,
            in_bot: false,
        };
        assert(entries_view(r.entries@) =~= seq![]);
        assert(text::texts(r.images@) =~= seq![]);
        r
    }

    /// Closes the exchange that is being read.
    fn close(self) -> (r: Vec<ChatEntry>)
        ensures
            entries_view(r@) == self@.complete(),
    {
        let ghost before = entries_view(self.entries@);
        let mut entries = self.entries;
        match (self.time, self.user, self.bot) {
            (Some(timestamp), Some(user_text), Some(bot_reply)) => {
                let entry = ChatEntry {
                    timestamp,
                    image_filenames: self.images,
                    user_text,
                    bot_reply,
                };
                entries.push(entry);
                assert(entries_view(entries@) =~= before.push(entry@));
            },
            _ => {},
        }
        entries
    }

    fn line(self, line: &str) -> (r: LogReader)
        ensures
            r@ == self@.line(line@),
    {
        if begins_with(line, "## [") && finishes_with(line, "] の会話") {
            let time = trim_start_texts(line, "## [");
            let time = trim_end_texts(time.as_str(), "] の会話");
            let entries = self.close();
            let r = LogReader {
                entries,
                time: Some(time),
                images: Vec::new(),
                user: None,
                bot: None,
                in_bot: false,
            };
            assert(text::texts(r.images@) =~= seq![]);
            return r;
        }
        match strip_prefix_text(line, "- shunrin824: ") {
            Some(raw) => {
                let (images, user) = parse_user_message(raw.as_str());
                return LogReader {
                    entries: self.entries,
                    time: self.time,
                    images,
                    user: Some(user),
                    bot: self.bot,
                    in_bot: false,
                };
            },
            None => {},
        }
        match strip_prefix_text(line, "- 月見ヤチヨ: ") {
            Some(msg) => {
                return LogReader {
                    entries: self.entries,
                    time: self.time,
                    images: self.images,
                    user: self.user,
                    bot: Some(msg),
                    in_bot: true,
                };
            },
            None => {},
        }
        if self.in_bot {
            let ghost this = self;
            match self.bot {
                Some(bot) => {
                    let mut bot = bot;
                    bot.push('\n');
                    bot.append(line);
                    assert(bot@ =~= this.bot->0@ + seq!['\n'] + line@);
                    LogReader {
                        entries: self.entries,
                        time: self.time,
                        images: self.images,
                        user: self.user,
                        bot: Some(bot),
                        in_bot: self.in_bot,
                    }
                },
                None => LogReader {
                    entries: self.entries,
                    time: self.time,
                    images: self.images,
                    user: self.user,
                    bot: None,
                    in_bot: self.in_bot,
                },
            }
        } else {
            self
        }
    }
}

/// The last `n` exchanges of a log, the oldest first.
pub fn read_last_entries(content: &str, n: usize) -> (r: Vec<ChatEntry>)
    ensures
        entries_view(r@) == last_of(log_entries(content@), n as int),
        r@.len() == if log_entries(content@).len() < n {
            log_entries(content@).len()
        } else {
            n as nat
        },
        forall|i: int|
            0 <= i < r@.len() ==> (#[trigger] r@[i])@ == log_entries(
                content@,
            )[log_entries(content@).len() - r@.len() + i],
{
    let all = lines_of(content);
    let ghost lines = text::texts(all@);
    let mut reader = LogReader::new();
    let mut i: usize = 0;
    assert(lines.take(0) =~= seq![]);
    while i < all.len()
        invariant
            lines == text::texts(all@),
            i <= all@.len(),
            reader@ == Reading::start().lines(lines.take(i as int)),
        decreases all@.len() - i,
    {
        reader = reader.line(all[i].as_str());
        assert(lines.take(i + 1).drop_last() =~= lines.take(i as int));
        assert(lines.take(i + 1).last() == all@[i as int]@);
        i += 1;
    }
    assert(lines.take(i as int) =~= lines);
    let mut entries = reader.close();
    let total: usize = entries.len();
    if total > n {
        let ghost whole = entries@;
        let tail = entries.split_off(total - n);
        assert(entries_view(tail@) =~= entries_view(whole).skip(total - n));
        assert forall|i: int| 0 <= i < tail@.len() implies (#[trigger] tail@[i])@ == log_entries(
            content@,
        )[total - tail@.len() + i] by {
            assert(entries_view(tail@)[i] == tail@[i]@);
        }
        tail
    } else {
        assert forall|i: int| 0 <= i < entries@.len() implies (#[trigger] entries@[i])@
            == log_entries(content@)[i] by {
            assert(entries_view(entries@)[i] == entries@[i]@);
        }
        entries
    }
}

// ---------------------------------------------------------------------------
// What a read gives back of a write
// ---------------------------------------------------------------------------
/// The name of an image can stand in the tag of a message.
pub open spec fn is_image_name(name: Seq<char>) -> bool {
    &&& name.len() > 0
    &&& !name.contains('|')
    &&& !name.contains(']')
    &&& text::trim(name) == name
}

/// A message that was tagged with image names gives back the names and the message. A
/// message that begins with a space would lose it.
pub proof fn law_tagged_message_is_read_back(images: Seq<Seq<char>>, message: Seq<char>)
    requires
        images.len() > 0,
        forall|i: int| 0 <= i < images.len() ==> is_image_name(#[trigger] images[i]),
        !text::has_prefix(message, " "@),
    ensures
        parsed_message(tagged_message(images, message)) == (images, message),
{
    reveal_strlit("[画像: ");
    reveal_strlit("|");
    reveal_strlit("] ");
    reveal_strlit(" ");
    let tag = "[画像: "@;
    let names = text::join(images, "|"@);
    let raw = tagged_message(images, message);
    let rest = names + "] "@ + message;
    assert(raw.subrange(0, tag.len() as int) =~= tag);
    assert(raw.skip(tag.len() as int) =~= rest);
    lemma_join_lacks(images, ']');
    assert forall|j: int| 0 <= j < names.len() implies rest[j] != ']' by {
        assert(rest[j] == names[j]);
    }
    text::lemma_find_char_is(rest, ']', names.len() as int);
    assert(rest.take(names.len() as int) =~= names);
    lemma_split_joined(images);
    let after = rest.skip(names.len() + 1int);
    assert(after =~= seq![' '] + message);
    assert(after.drop_first() =~= message);
    if message.len() > 0 && message[0] == ' ' {
        assert(message.subrange(0, 1) =~= " "@);
        assert(text::has_prefix(message, " "@));
    }
    assert(text::trim_start_char(message, ' ') == message);
    assert(text::trim_start_char(after, ' ') == message);
    lemma_trimmed_names(images);
}

/// A message without images gives back the message, unless it looks like a tag.
pub proof fn law_plain_message_is_read_back(message: Seq<char>)
    requires
        match text::after_prefix(message, "[画像: "@) {
            Some(rest) => !rest.contains(']'),
            None => true,
        },
    ensures
        parsed_message(tagged_message(seq![], message)) == (Seq::<Seq<char>>::empty(), message),
{
    match text::after_prefix(message, "[画像: "@) {
        Some(rest) => {
            text::lemma_find_char(rest, ']');
        },
        None => {},
    }
}

proof fn lemma_join_lacks(parts: Seq<Seq<char>>, c: char)
    requires
        c != '|',
        forall|i: int| 0 <= i < parts.len() ==> !(#[trigger] parts[i]).contains(c),
    ensures
        forall|j: int|
            0 <= j < text::join(parts, "|"@).len() ==> #[trigger] text::join(parts, "|"@)[j] != c,
    decreases parts.len(),
{
    reveal_strlit("|");
    let all = text::join(parts, "|"@);
    if parts.len() == 1 {
        assert(!parts[0].contains(c));
    } else if parts.len() > 1 {
        let front = text::join(parts.drop_last(), "|"@);
        lemma_join_lacks(parts.drop_last(), c);
        assert(!parts.last().contains(c));
        assert forall|j: int| 0 <= j < all.len() implies #[trigger] all[j] != c by {
            if j < front.len() {
                assert(all[j] == front[j]);
            } else if j > front.len() {
                assert(all[j] == parts.last()[j - front.len() - 1]);
            }
        }
    }
}

/// Splitting a text that ends with a separator and a last piece.
/// A piece behind a separator is one more piece.
pub proof fn lemma_split_last(a: Seq<char>, c: char, b: Seq<char>)
    requires
        !b.contains(c),
    ensures
        text::split_on(a + seq![c] + b, c) == text::split_on(a, c).push(b),
    decreases a.len(),
{
    let s = a + seq![c] + b;
    text::lemma_find_char(a, c);
    match text::find_char(a, c) {
        None => {
            assert forall|j: int| 0 <= j < a.len() implies s[j] != c by {
                assert(a.contains(a[j]));
            }
            text::lemma_find_char_is(s, c, a.len() as int);
            assert(s.take(a.len() as int) =~= a);
            assert(s.skip(a.len() + 1int) =~= b);
            text::lemma_find_char(b, c);
            assert(text::split_on(b, c) == seq![b]);
            assert(text::split_on(a, c) == seq![a]);
            assert(text::split_on(s, c) =~= text::split_on(a, c).push(b));
        },
        Some(i) => {
            assert forall|j: int| 0 <= j < i implies s[j] != c by {
                assert(a.take(i)[j] == s[j]);
            }
            text::lemma_find_char_is(s, c, i);
            let rest = a.skip(i + 1);
            lemma_split_last(rest, c, b);
            assert(s.take(i) =~= a.take(i));
            assert(s.skip(i + 1) =~= rest + seq![c] + b);
            assert(text::split_on(s, c) =~= text::split_on(a, c).push(b));
        },
    }
}

proof fn lemma_split_joined(parts: Seq<Seq<char>>)
    requires
        parts.len() > 0,
        forall|i: int| 0 <= i < parts.len() ==> !(#[trigger] parts[i]).contains('|'),
    ensures
        text::split_on(text::join(parts, "|"@), '|') == parts,
    decreases parts.len(),
{
    reveal_strlit("|");
    assert("|"@ =~= seq!['|']);
    if parts.len() == 1 {
        assert(!parts[0].contains('|'));
        text::lemma_find_char(parts[0], '|');
        assert(text::split_on(parts[0], '|') =~= parts);
    } else {
        let front = parts.drop_last();
        lemma_split_joined(front);
        assert(!parts.last().contains('|'));
        lemma_split_last(text::join(front, "|"@), '|', parts.last());
        assert(front.push(parts.last()) =~= parts);
    }
}

proof fn lemma_trimmed_names(parts: Seq<Seq<char>>)
    requires
        forall|i: int| 0 <= i < parts.len() ==> is_image_name(#[trigger] parts[i]),
    ensures
        text::trimmed_parts(parts) == parts,
    decreases parts.len(),
{
    let f = |p: Seq<char>| text::trim(p);
    let keep = |p: Seq<char>| p.len() > 0;
    reveal(Seq::filter);
    assert(parts.map_values(f) =~= parts);
    if parts.len() > 0 {
        let front = parts.drop_last();
        lemma_trimmed_names(front);
        assert(front.map_values(f) =~= front);
        assert(is_image_name(parts.last()));
        assert(front.push(parts.last()) =~= parts);
    } else {
        assert(parts.filter(keep) =~= parts);
    }
}

proof fn lemma_split_prefixed(p: Seq<char>, s: Seq<char>, c: char)
    requires
        !p.contains(c),
    ensures
        text::split_on(s, c).len() > 0,
        text::split_on(p + s, c) == text::split_on(s, c).update(0, p + text::split_on(s, c)[0]),
{
    let t = p + s;
    text::lemma_find_char(s, c);
    assert forall|j: int| 0 <= j < p.len() implies t[j] != c by {
        assert(p.contains(p[j]));
    }
    match text::find_char(s, c) {
        None => {
            assert forall|j: int| 0 <= j < t.len() implies t[j] != c by {
                if j >= p.len() {
                    assert(s.contains(s[j - p.len()]));
                }
            }
            text::lemma_find_char_none(t, c);
            assert(text::split_on(t, c) == seq![t]);
            assert(text::split_on(t, c) =~= text::split_on(s, c).update(0, p + s));
        },
        Some(i) => {
            assert forall|j: int| 0 <= j < p.len() + i implies t[j] != c by {
                if j >= p.len() {
                    assert(s.take(i)[j - p.len()] == t[j]);
                }
            }
            text::lemma_find_char_is(t, c, p.len() + i);
            assert(t.take(p.len() + i) =~= p + s.take(i));
            assert(t.skip(p.len() + i + 1) =~= s.skip(i + 1));
            assert(text::split_on(t, c) =~= text::split_on(s, c).update(0, p + s.take(i)));
        },
    }
}

proof fn lemma_join_front(h: Seq<char>, t: Seq<Seq<char>>, sep: Seq<char>)
    requires
        t.len() > 0,
    ensures
        text::join(seq![h] + t, sep) == h + sep + text::join(t, sep),
    decreases t.len(),
{
    let all = seq![h] + t;
    assert(all.last() == t.last());
    if t.len() == 1 {
        assert(all.drop_last() =~= seq![h]);
        assert(text::join(seq![h], sep) == h);
        assert(text::join(all, sep) =~= h + sep + t[0]);
    } else {
        lemma_join_front(h, t.drop_last(), sep);
        assert(all.drop_last() =~= seq![h] + t.drop_last());
        assert(text::join(all, sep) =~= h + sep + text::join(t, sep));
    }
}

/// The pieces of a text between line feeds, joined by line feeds, are the text.
pub proof fn lemma_join_split(s: Seq<char>)
    ensures
        text::join(text::split_on(s, '\n'), seq!['\n']) == s,
    decreases s.len(),
{
    text::lemma_find_char(s, '\n');
    match text::find_char(s, '\n') {
        None => {},
        Some(i) => {
            let rest = s.skip(i + 1);
            lemma_join_split(rest);
            lemma_split_prefixed(seq![], rest, '\n');
            lemma_join_front(s.take(i), text::split_on(rest, '\n'), seq!['\n']);
            assert(s.take(i) + seq!['\n'] + rest =~= s);
        },
    }
}

/// A line that means nothing to a reader of the log but more of the answer.
pub open spec fn is_plain_line(line: Seq<char>) -> bool {
    &&& !is_header(line)
    &&& !text::has_prefix(line, "- shunrin824: "@)
    &&& !text::has_prefix(line, "- 月見ヤチヨ: "@)
}

/// The lines of an answer come back from the log: none ends with a carriage return, and
/// those after the first are plain.
pub open spec fn is_loggable_answer(bot: Seq<char>) -> bool {
    let pieces = text::split_on(bot, '\n');
    &&& forall|k: int|
        0 <= k < pieces.len() ==> text::without_cr(#[trigger] pieces[k]) == pieces[k]
    &&& forall|k: int| 1 <= k < pieces.len() ==> is_plain_line(#[trigger] pieces[k])
}

/// A message comes back from the log: it is one line.
pub open spec fn is_loggable_message(user: Seq<char>) -> bool {
    !user.contains('\n') && text::without_cr(user) == user
}

proof fn lemma_lines_then(r: Reading, a: Seq<Seq<char>>, b: Seq<Seq<char>>)
    ensures
        r.lines(a + b) == r.lines(a).lines(b),
    decreases b.len(),
{
    if b.len() == 0 {
        assert(a + b =~= a);
    } else {
        assert((a + b).drop_last() =~= a + b.drop_last());
        lemma_lines_then(r, a, b.drop_last());
    }
}

proof fn lemma_one_more(r: Reading, line: Seq<char>)
    ensures
        r.lines(seq![line]) == r.line(line),
{
    assert(seq![line].drop_last() =~= seq![]);
    reveal_with_fuel(Reading::lines, 2);
}

/// Plain lines behind an answer are gathered into it.
proof fn lemma_answer_gathered(r: Reading, first: Seq<char>, more: Seq<Seq<char>>)
    requires
        r.in_bot,
        r.bot == Some(first),
        forall|k: int| 0 <= k < more.len() ==> is_plain_line(#[trigger] more[k]),
    ensures
        r.lines(more) == (Reading {
            bot: Some(text::join(seq![first] + more, seq!['\n'])),
            ..r
        }),
    decreases more.len(),
{
    let all = seq![first] + more;
    if more.len() == 0 {
        assert(all =~= seq![first]);
    } else {
        let front = more.drop_last();
        lemma_answer_gathered(r, first, front);
        assert(is_plain_line(more.last()));
        assert(all.drop_last() =~= seq![first] + front);
        assert(all.last() == more.last());
    }
}

proof fn lemma_header(time: Seq<char>)
    requires
        time.len() == 0 || time[0] != '#',
        !time.contains(']'),
    ensures
        is_header("## ["@ + time + "] の会話"@),
        header_time("## ["@ + time + "] の会話"@) == time,
{
    reveal_strlit("## [");
    reveal_strlit("] の会話");
    let open = "## ["@;
    let close = "] の会話"@;
    let line = open + time + close;
    assert(line.subrange(0, open.len() as int) =~= open);
    assert(line.subrange(line.len() - close.len(), line.len() as int) =~= close);
    let rest = line.skip(open.len() as int);
    assert(rest =~= time + close);
    if text::has_prefix(rest, open) {
        assert(rest.subrange(0, open.len() as int)[0] == rest[0]);
    }
    assert(text::trim_start_text(rest, open) == rest);
    assert(text::trim_start_text(line, open) == rest);
    assert(rest.subrange(rest.len() - close.len(), rest.len() as int) =~= close);
    assert(rest.take(rest.len() - close.len()) =~= time);
    if text::has_suffix(time, close) {
        let k = time.len() - close.len();
        assert(time.subrange(k, time.len() as int)[0] == time[k]);
        assert(time.contains(']'));
    }
    assert(text::trim_end_text(time, close) == time);
}

/// An entry that is appended to a log, whatever the log holds, is read back as it was
/// written: its time, the image names and the text of the message, and the whole answer.
/// The entries in front of it stay what they are; the empty line that opens an entry counts
/// as one more line of the answer before it.
pub proof fn law_appended_entry_is_read_back(
    content: Seq<char>,
    t: LocalTime,
    user: Seq<char>,
    bot: Seq<char>,
)
    requires
        is_loggable_message(user),
        is_loggable_answer(bot),
    ensures
        ({
            let time = clock::formatted(t, "%Y-%m-%d %H:%M:%S"@);
            log_entries(content + entry_text(time, user, bot)) == log_entries(
                content + seq!['\n'],
            ).push(
                Entry {
                    time,
                    images: parsed_message(user).0,
                    user: parsed_message(user).1,
                    bot,
                },
            )
        }),
{
    let time = clock::formatted(t, "%Y-%m-%d %H:%M:%S"@);
    lemma_log_time(t);
    lemma_entry_read_back(content, time, user, bot);
}

/// The time of an entry holds no line feed and no bracket.
proof fn lemma_log_time(t: LocalTime)
    ensures
        ({
            let time = clock::formatted(t, "%Y-%m-%d %H:%M:%S"@);
            &&& time.len() == 0 || time[0] != '#'
            &&& !time.contains(']')
            &&& !time.contains('\n')
        }),
{
    let p = "%Y-%m-%d %H:%M:%S"@;
    reveal_strlit("%Y-%m-%d %H:%M:%S");
    assert(clock::is_pattern(p)) by {
        reveal_with_fuel(clock::is_pattern, 12);
    }
    clock::law_formatted_chars(t, p);
    let time = clock::formatted(t, p);
    assert forall|i: int| 0 <= i < time.len() implies time[i] != ']' && time[i] != '\n' && time[i]
        != '#' by {
        assert(clock::is_time_char(time[i], p));
    }
}

/// The lines of an entry, behind the empty one that opens it.
spec fn entry_lines(time: Seq<char>, user: Seq<char>, bot: Seq<char>) -> Seq<Seq<char>> {
    let pieces = text::split_on(bot, '\n');
    seq!["## ["@ + time + "] の会話"@] + (seq!["- shunrin824: "@ + user] + pieces.update(
        0,
        "- 月見ヤチヨ: "@ + pieces[0],
    ))
}

proof fn lemma_entry_lines(
    content: Seq<char>,
    time: Seq<char>,
    user: Seq<char>,
    bot: Seq<char>,
)
    requires
        !time.contains('\n'),
        is_loggable_message(user),
        is_loggable_answer(bot),
    ensures
        text::lines(content + entry_text(time, user, bot)) == text::lines(content + seq!['\n'])
            + entry_lines(time, user, bot),
{
    reveal_strlit("\n## [");
    reveal_strlit("## [");
    reveal_strlit("] の会話\n- shunrin824: ");
    reveal_strlit("] の会話");
    reveal_strlit("- shunrin824: ");
    reveal_strlit("\n- 月見ヤチヨ: ");
    reveal_strlit("- 月見ヤチヨ: ");
    reveal_strlit("\n");
    let lf: Seq<char> = seq!['\n'];
    let header = "## ["@ + time + "] の会話"@;
    let user_line = "- shunrin824: "@ + user;
    let bot_mark = "- 月見ヤチヨ: "@;
    let bot_text = bot_mark + bot;
    let entry = entry_text(time, user, bot);
    assert(entry =~= lf + ((header + lf) + ((user_line + lf) + (bot_text + lf))));
    assert(!header.contains('\n'));
    text::lemma_one_line(header);
    assert(!user_line.contains('\n'));
    if user.len() > 0 {
        assert(user_line.last() == user.last());
        if user.last() == '\r' {
            assert(text::without_cr(user).len() < user.len());
        }
    }
    text::lemma_one_line(user_line);
    lemma_bot_lines(bot);
    text::lemma_lines_add(user_line + lf, bot_text + lf);
    text::lemma_lines_add(header + lf, (user_line + lf) + (bot_text + lf));
    let tail = (header + lf) + ((user_line + lf) + (bot_text + lf));
    assert(text::lines(tail) =~= entry_lines(time, user, bot));
    assert(content + entry =~= (content + lf) + tail);
    assert((content + lf).last() == '\n');
    text::lemma_lines_add(content + lf, tail);
}

proof fn lemma_bot_lines(bot: Seq<char>)
    requires
        is_loggable_answer(bot),
    ensures
        ({
            let pieces = text::split_on(bot, '\n');
            &&& pieces.len() > 0
            &&& text::lines("- 月見ヤチヨ: "@ + bot + seq!['\n']) == pieces.update(
                0,
                "- 月見ヤチヨ: "@ + pieces[0],
            )
        }),
{
    reveal_strlit("- 月見ヤチヨ: ");
    let bot_mark = "- 月見ヤチヨ: "@;
    let pieces = text::split_on(bot, '\n');
    let bot_lines = pieces.update(0, bot_mark + pieces[0]);
    assert(!bot_mark.contains('\n'));
    lemma_split_prefixed(bot_mark, bot, '\n');
    text::lemma_lines_ended(bot_mark + bot);
    assert forall|k: int| 0 <= k < bot_lines.len() implies text::without_cr(
        #[trigger] bot_lines[k],
    ) == bot_lines[k] by {
        assert(text::without_cr(pieces[k]) == pieces[k]);
        if k == 0 && pieces[0].len() > 0 {
            assert(bot_lines[0].last() == pieces[0].last());
            if pieces[0].last() == '\r' {
                assert(text::without_cr(pieces[0]).len() < pieces[0].len());
            }
        }
    }
    assert(text::lines(bot_mark + bot + seq!['\n']) =~= bot_lines);
}

proof fn lemma_entry_read_back(
    content: Seq<char>,
    time: Seq<char>,
    user: Seq<char>,
    bot: Seq<char>,
)
    requires
        time.len() == 0 || time[0] != '#',
        !time.contains(']'),
        !time.contains('\n'),
        is_loggable_message(user),
        is_loggable_answer(bot),
    ensures
        log_entries(content + entry_text(time, user, bot)) == log_entries(
            content + seq!['\n'],
        ).push(
            Entry { time, images: parsed_message(user).0, user: parsed_message(user).1, bot },
        ),
{
    let lf: Seq<char> = seq!['\n'];
    let start = Reading::start();
    let before = start.lines(text::lines(content + lf));
    lemma_entry_lines(content, time, user, bot);
    lemma_lines_then(start, text::lines(content + lf), entry_lines(time, user, bot));
    lemma_entry_read(before, time, user, bot);
}

proof fn lemma_entry_read(before: Reading, time: Seq<char>, user: Seq<char>, bot: Seq<char>)
    requires
        time.len() == 0 || time[0] != '#',
        !time.contains(']'),
        is_loggable_answer(bot),
    ensures
        before.lines(entry_lines(time, user, bot)).complete() == before.complete().push(
            Entry { time, images: parsed_message(user).0, user: parsed_message(user).1, bot },
        ),
{
    reveal_strlit("## [");
    reveal_strlit("- shunrin824: ");
    reveal_strlit("- 月見ヤチヨ: ");
    let header = "## ["@ + time + "] の会話"@;
    let user_line = "- shunrin824: "@ + user;
    let bot_mark = "- 月見ヤチヨ: "@;
    let pieces = text::split_on(bot, '\n');
    let bot_lines = pieces.update(0, bot_mark + pieces[0]);
    lemma_bot_lines(bot);
    lemma_lines_then(before, seq![header], seq![user_line] + bot_lines);
    lemma_one_more(before, header);
    lemma_header(time);
    let r1 = before.line(header);
    lemma_lines_then(r1, seq![user_line], bot_lines);
    lemma_one_more(r1, user_line);
    let r2 = r1.line(user_line);
    assert(user_line.subrange(0, "- shunrin824: "@.len() as int) =~= "- shunrin824: "@);
    assert(user_line.skip("- shunrin824: "@.len() as int) =~= user);
    if text::has_prefix(user_line, "## ["@) {
        assert(user_line.subrange(0, 4)[0] == user_line[0]);
    }
    let first = bot_lines[0];
    let more = bot_lines.skip(1);
    assert(bot_lines =~= seq![first] + more);
    lemma_lines_then(r2, seq![first], more);
    lemma_one_more(r2, first);
    let r3 = r2.line(first);
    assert(first.subrange(0, bot_mark.len() as int) =~= bot_mark);
    assert(first.skip(bot_mark.len() as int) =~= pieces[0]);
    if text::has_prefix(first, "## ["@) {
        assert(first.subrange(0, 4)[0] == first[0]);
    }
    if text::has_prefix(first, "- shunrin824: "@) {
        assert(first.subrange(0, "- shunrin824: "@.len() as int)[2] == first[2]);
    }
    assert forall|k: int| 0 <= k < more.len() implies is_plain_line(#[trigger] more[k]) by {
        assert(more[k] == pieces[k + 1]);
    }
    lemma_answer_gathered(r3, pieces[0], more);
    assert(seq![pieces[0]] + more =~= pieces);
    lemma_join_split(bot);
}

/// An exchange that is written to the log.
pub ghost struct Exchange {
    pub at: LocalTime,
    pub user: Seq<char>,
    pub bot: Seq<char>,
}

/// A log to which the exchanges were appended, one after the other.
pub open spec fn log_of(exchanges: Seq<Exchange>) -> Seq<char>
    decreases exchanges.len(),
{
    if exchanges.len() == 0 {
        seq![]
    } else {
        let x = exchanges.last();
        log_of(exchanges.drop_last()) + entry_text(
            clock::formatted(x.at, "%Y-%m-%d %H:%M:%S"@),
            x.user,
            x.bot,
        )
    }
}

/// What is read of an exchange, with `ending` behind its answer.
pub open spec fn entry_of(x: Exchange, ending: Seq<char>) -> Entry {
    Entry {
        time: clock::formatted(x.at, "%Y-%m-%d %H:%M:%S"@),
        images: parsed_message(x.user).0,
        user: parsed_message(x.user).1,
        bot: x.bot + ending,
    }
}

/// A log gives back every exchange that was written to it, in order. An answer with
/// another exchange behind it comes with one line feed more.
pub proof fn law_log_is_read_back(exchanges: Seq<Exchange>)
    requires
        forall|i: int|
            0 <= i < exchanges.len() ==> is_loggable_message((#[trigger] exchanges[i]).user)
                && is_loggable_answer(exchanges[i].bot),
    ensures
        log_entries(log_of(exchanges)) == Seq::new(
            exchanges.len(),
            |i: int|
                entry_of(
                    exchanges[i],
                    if i + 1 < exchanges.len() {
                        seq!['\n']
                    } else {
                        seq![]
                    },
                ),
        ),
{
    if exchanges.len() == 0 {
        assert(log_entries(log_of(exchanges)) =~= seq![]);
    } else {
        let front = exchanges.drop_last();
        let x = exchanges.last();
        assert forall|i: int| 0 <= i < front.len() implies is_loggable_message(
            (#[trigger] front[i]).user,
        ) && is_loggable_answer(front[i].bot) by {
            assert(front[i] == exchanges[i]);
        }
        lemma_log_before_another(front);
        law_appended_entry_is_read_back(log_of(front), x.at, x.user, x.bot);
        assert(x.bot + Seq::<char>::empty() =~= x.bot);
        let all = Seq::new(
            exchanges.len(),
            |i: int|
                entry_of(
                    exchanges[i],
                    if i + 1 < exchanges.len() {
                        seq!['\n']
                    } else {
                        seq![]
                    },
                ),
        );
        assert(log_entries(log_of(exchanges)) =~= all);
    }
}

/// The same log with an empty line behind it.
proof fn lemma_log_before_another(exchanges: Seq<Exchange>)
    requires
        forall|i: int|
            0 <= i < exchanges.len() ==> is_loggable_message((#[trigger] exchanges[i]).user)
                && is_loggable_answer(exchanges[i].bot),
    ensures
        log_entries(log_of(exchanges) + seq!['\n']) == Seq::new(
            exchanges.len(),
            |i: int| entry_of(exchanges[i], seq!['\n']),
        ),
    decreases exchanges.len(),
{
    let lf: Seq<char> = seq!['\n'];
    let all = Seq::new(exchanges.len(), |i: int| entry_of(exchanges[i], seq!['\n']));
    if exchanges.len() == 0 {
        assert(log_of(exchanges) + lf =~= seq![] + lf);
        text::lemma_one_line(seq![]);
        lemma_one_more(Reading::start(), seq![]);
        reveal_strlit("## [");
        reveal_strlit("- shunrin824: ");
        reveal_strlit("- 月見ヤチヨ: ");
        assert(log_entries(log_of(exchanges) + lf) =~= all);
    } else {
        let front = exchanges.drop_last();
        let x = exchanges.last();
        assert forall|i: int| 0 <= i < front.len() implies is_loggable_message(
            (#[trigger] front[i]).user,
        ) && is_loggable_answer(front[i].bot) by {
            assert(front[i] == exchanges[i]);
        }
        lemma_log_before_another(front);
        lemma_answer_with_line_feed(x.bot);
        law_appended_entry_is_read_back(log_of(front), x.at, x.user, x.bot + lf);
        reveal_strlit("\n");
        let time = clock::formatted(x.at, "%Y-%m-%d %H:%M:%S"@);
        assert(log_of(exchanges) + lf =~= log_of(front) + entry_text(time, x.user, x.bot + lf));
        assert(log_entries(log_of(exchanges) + lf) =~= all);
    }
}

proof fn lemma_answer_with_line_feed(bot: Seq<char>)
    requires
        is_loggable_answer(bot),
    ensures
        is_loggable_answer(bot + seq!['\n']),
{
    reveal_strlit("## [");
    reveal_strlit("- shunrin824: ");
    reveal_strlit("- 月見ヤチヨ: ");
    let empty: Seq<char> = seq![];
    assert(bot + seq!['\n'] + empty =~= bot + seq!['\n']);
    lemma_split_last(bot, '\n', empty);
    let a = text::split_on(bot, '\n');
    let b = text::split_on(bot + seq!['\n'], '\n');
    assert(b == a.push(empty));
    assert forall|k: int| 0 <= k < b.len() implies text::without_cr(#[trigger] b[k]) == b[k] by {
        if k < a.len() {
            assert(b[k] == a[k]);
        }
    }
    assert forall|k: int| 1 <= k < b.len() implies is_plain_line(#[trigger] b[k]) by {
        if k < a.len() {
            assert(b[k] == a[k]);
        }
    }
}

/// The last items of a sequence: as many as wanted, or all where there are fewer, and those
/// that stand at its end, in their order.
pub proof fn law_last_items(s: Seq<Entry>, n: nat)
    ensures
        ({
            let r = last_of(s, n as int);
            &&& r.len() == if s.len() < n {
                s.len()
            } else {
                n
            }
            &&& forall|i: int| 0 <= i < r.len() ==> #[trigger] r[i] == s[s.len() - r.len() + i]
        }),
{
}

/// What a line of the log means, whatever was read before it. A first line ends the exchange
/// before it and begins another; a line of the user is the message with its images; a line
/// of the bot begins the answer; any other line is one more of the answer, where one has
/// begun and no line of the user came behind it.
pub proof fn law_what_a_line_means(r: Reading, time: Seq<char>, raw: Seq<char>, line: Seq<char>)
    requires
        time.len() == 0 || time[0] != '#',
        !time.contains(']'),
        !(text::has_prefix(line, "## ["@) && text::has_suffix(line, "] の会話"@)),
        !text::has_prefix(line, "- shunrin824: "@),
        !text::has_prefix(line, "- 月見ヤチヨ: "@),
    ensures
        r.line("## ["@ + time + "] の会話"@) == (Reading {
            entries: match (r.time, r.user, r.bot) {
                (Some(t), Some(u), Some(b)) => r.entries.push(
                    Entry { time: t, images: r.images, user: u, bot: b },
                ),
                _ => r.entries,
            },
            time: Some(time),
            images: seq![],
            user: None,
            bot: None,
            in_bot: false,
        }),
        r.line("- shunrin824: "@ + raw) == (Reading {
            images: parsed_message(raw).0,
            user: Some(parsed_message(raw).1),
            in_bot: false,
            ..r
        }),
        r.line("- 月見ヤチヨ: "@ + raw) == (Reading { bot: Some(raw), in_bot: true, ..r }),
        r.in_bot && r.bot is Some ==> r.line(line) == (Reading {
            bot: Some(r.bot->0 + seq!['\n'] + line),
            ..r
        }),
        !r.in_bot ==> r.line(line) == r,
{
    reveal_strlit("## [");
    reveal_strlit("- shunrin824: ");
    reveal_strlit("- 月見ヤチヨ: ");
    lemma_header(time);
    let user = "- shunrin824: "@ + raw;
    let bot = "- 月見ヤチヨ: "@ + raw;
    text::law_text_in_text(seq![], "- shunrin824: "@, raw, user);
    text::law_text_in_text(seq![], "- 月見ヤチヨ: "@, raw, bot);
    if text::has_prefix(user, "## ["@) {
        assert(user.subrange(0, 4)[0] == '#');
    }
    if text::has_prefix(bot, "## ["@) {
        assert(bot.subrange(0, 4)[0] == '#');
    }
    if text::has_prefix(bot, "- shunrin824: "@) {
        assert(bot.subrange(0, 14)[2] == 's');
        assert(bot[2] == '月');
    }
}

/// A log is read line by line, from its first line to its last, and gives the exchanges that
/// have a time, a message and an answer.
pub proof fn law_log_is_read_line_by_line(content: Seq<char>, lines: Seq<Seq<char>>, line: Seq<char>)
    ensures
        Reading::start() == (Reading {
            entries: seq![],
            time: None,
            images: seq![],
            user: None,
            bot: None,
            in_bot: false,
        }),
        Reading::start().lines(seq![]) == Reading::start(),
        Reading::start().lines(lines.push(line)) == Reading::start().lines(lines).line(line),
        ({
            let r = Reading::start().lines(text::lines(content));
            log_entries(content) == match (r.time, r.user, r.bot) {
                (Some(t), Some(u), Some(b)) => r.entries.push(
                    Entry { time: t, images: r.images, user: u, bot: b },
                ),
                _ => r.entries,
            }
        }),
{
    assert(lines.push(line).drop_last() =~= lines);
}

/// How a message of the log is parted: the names between the opening of the tag and the first
/// bracket, and what follows, without the spaces in front of it.
pub proof fn law_message_is_parted_at_its_tag(inside: Seq<char>, after: Seq<char>)
    requires
        !inside.contains(']'),
    ensures
        parsed_message("[画像: "@ + inside + seq![']'] + after) == (
            text::trimmed_parts(text::split_on(inside, '|')),
            text::trim_start_char(after, ' '),
        ),
{
    let tag = "[画像: "@;
    let rest = inside + seq![']'] + after;
    let raw = tag + inside + seq![']'] + after;
    assert(raw =~= tag + rest);
    text::law_text_in_text(seq![], tag, rest, raw);
    assert forall|j: int| 0 <= j < inside.len() implies rest[j] != ']' by {
        assert(inside.contains(inside[j]));
    }
    text::lemma_find_char_is(rest, ']', inside.len() as int);
    assert(rest.take(inside.len() as int) =~= inside);
    assert(rest.skip(inside.len() + 1int) =~= after);
}

/// Which line begins an exchange, and the time that it gives.
pub proof fn law_first_line(line: Seq<char>)
    ensures
        is_header(line) <==> text::has_prefix(line, "## ["@) && text::has_suffix(
            line,
            "] の会話"@,
        ),
        header_time(line) == text::trim_end_text(
            text::trim_start_text(line, "## ["@),
            "] の会話"@,
        ),
{
}

}
