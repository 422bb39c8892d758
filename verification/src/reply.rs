//! What is shown of an answer: the answer without its reasoning, cut into messages.

use vstd::prelude::*;
use vstd::slice::slice_subrange;
use vstd::string::StringExecFns;

use crate::memory_log;
use crate::text;
use crate::text::chars_of;
use crate::text::find_chars;
use crate::text::split_chars;
use crate::text::text_of;
use crate::text::trim_text;

verus! {

// ---------------------------------------------------------------------------
// <think> blocks
// ---------------------------------------------------------------------------
/// A text without its `<think>` blocks. A block that is never closed reaches to the end
/// of the text.
pub open spec fn without_think(s: Seq<char>) -> Seq<char>
    decreases s.len(),
    via without_think_shrinks
{
    match text::find(s, "<think>"@) {
        None => s,
        Some(start) => {
            let inside = s.skip(start + "<think>"@.len());
            match text::find(inside, "</think>"@) {
                None => s.take(start),
                Some(end) => s.take(start) + without_think(inside.skip(end + "</think>"@.len())),
            }
        },
    }
}

#[via_fn]
proof fn without_think_shrinks(s: Seq<char>) {
    reveal_strlit("<think>");
    text::lemma_find(s, "<think>"@);
    match text::find(s, "<think>"@) {
        None => {},
        Some(start) => {
            text::lemma_find(s.skip(start + "<think>"@.len()), "</think>"@);
        },
    }
}

/// Removes the `<think>` blocks of an answer, and the white space around what is left.
/// This is for display only: the log and the knowledge base get the answer as it came.
pub fn strip_think_tags(answer: &str) -> (r: String)
    ensures
        r@ == text::trim(without_think(answer@)),
{
    let x = chars_of(answer);
    let chars = x.as_slice();
    let open = chars_of("<think>");
    let close = chars_of("</think>");
    let n: usize = chars.len();
    let mut result = String::new();
    let mut at: usize = 0;
    assert(answer@.skip(0) =~= answer@);
    proof {
        reveal_strlit("<think>");
        reveal_strlit("</think>");
    }
    loop
        invariant_except_break
            at <= n,
            result@ + without_think(answer@.skip(at as int)) == without_think(answer@),
        invariant
            chars@ == answer@,
            n == chars@.len(),
            open@ == "<think>"@,
            close@ == "</think>"@,
            open@.len() == 7,
            close@.len() == 8,
        ensures
            result@ == without_think(answer@),
        decreases n - at,
    {
        let remaining = slice_subrange(chars, at, n);
        let ghost rest = answer@.skip(at as int);
        assert(remaining@ =~= rest);
        let ghost before = result@;
        match find_chars(remaining, open.as_slice()) {
            None => {
                let tail = text_of(remaining);
                result.append(tail.as_str());
                break;
            },
            Some(start) => {
                let head = text_of(slice_subrange(remaining, 0, start));
                assert(head@ =~= rest.take(start as int));
                result.append(head.as_str());
                let inside = slice_subrange(remaining, start + open.len(), remaining.len());
                assert(inside@ =~= rest.skip(start + 7));
                match find_chars(inside, close.as_slice()) {
                    None => {
                        break;
                    },
                    Some(end) => {
                        assert(inside@.skip(end + 8) =~= answer@.skip(at + start + 7 + end + 8));
                        assert(before + (head@ + without_think(inside@.skip(end + 8)))
                            =~= result@ + without_think(inside@.skip(end + 8)));
                        at = at + start + open.len() + end + close.len();
                    },
                }
            },
        }
    }
    trim_text(result.as_str())
}

/// A block that is opened and closed is removed, and what stands in front of it is kept
/// as it is.
pub proof fn law_think_block_removed(a: Seq<char>, b: Seq<char>, c: Seq<char>)
    requires
        !text::has_text(a, "<think>"@),
        !text::has_text(b, "</think>"@),
    ensures
        without_think(a + "<think>"@ + b + "</think>"@ + c) == a + without_think(c),
{
    reveal_strlit("<think>");
    reveal_strlit("</think>");
    let open = "<think>"@;
    let close = "</think>"@;
    let s = a + open + b + close + c;
    let inside = b + close + c;
    assert(s =~= a + open + inside);
    lemma_first_marker(a, open, inside);
    assert(s.skip(a.len() + 7int) =~= inside);
    assert(inside =~= b + close + c);
    lemma_first_marker(b, close, c);
    assert(inside.skip(b.len() + 8int) =~= c);
    assert(s.take(a.len() as int) =~= a);
}

/// A text without a block is shown whole.
pub proof fn law_text_without_think_is_kept(s: Seq<char>)
    requires
        !text::has_text(s, "<think>"@),
    ensures
        without_think(s) == s,
{
    text::lemma_find(s, "<think>"@);
}

/// A block that is never closed hides the rest of the text.
pub proof fn law_unclosed_think_hides_the_rest(a: Seq<char>, b: Seq<char>)
    requires
        !text::has_text(a, "<think>"@),
        !text::has_text(b, "</think>"@),
    ensures
        without_think(a + "<think>"@ + b) == a,
{
    reveal_strlit("<think>");
    lemma_first_marker(a, "<think>"@, b);
    assert((a + "<think>"@ + b).skip(a.len() + 7int) =~= b);
    text::lemma_find(b, "</think>"@);
    assert((a + "<think>"@ + b).take(a.len() as int) =~= a);
}

/// A marker whose first character stands nowhere else in it is found at the end of a
/// text that does not hold it.
proof fn lemma_first_marker(a: Seq<char>, p: Seq<char>, rest: Seq<char>)
    requires
        p.len() > 0,
        forall|k: int| 0 < k < p.len() ==> #[trigger] p[k] != p[0],
        !text::has_text(a, p),
    ensures
        text::find(a + p + rest, p) == Some(a.len() as int),
{
    let s = a + p + rest;
    assert(s.subrange(a.len() as int, (a.len() + p.len()) as int) =~= p);
    assert(text::occurs_at(s, p, a.len() as int));
    assert forall|j: int| 0 <= j < a.len() implies !text::occurs_at(s, p, j) by {
        if text::occurs_at(s, p, j) {
            let at_j = s.subrange(j, j + p.len());
            if j + p.len() <= a.len() {
                assert(a.subrange(j, j + p.len()) =~= at_j);
                assert(text::occurs_at(a, p, j));
            } else {
                let k = a.len() - j;
                assert(at_j[k] == s[a.len() as int]);
                assert(p[k] == p[0]);
            }
        }
    }
    text::lemma_find_is(s, p, a.len() as int);
}

// ---------------------------------------------------------------------------
// Messages of bounded length
// ---------------------------------------------------------------------------
/// The length of a text in UTF-8, in bytes.
pub open spec fn byte_len(s: Seq<char>) -> nat {
    vstd::utf8::encode_utf8(s).len()
}

/// A line cut into blocks of `limit` characters; the last may be shorter.
pub open spec fn blocks(line: Seq<char>, limit: int) -> Seq<Seq<char>>
    decreases line.len(),
{
    if limit <= 0 || line.len() == 0 {
        seq![]
    } else if line.len() <= limit {
        seq![line]
    } else {
        seq![line.take(limit)] + blocks(line.skip(limit), limit)
    }
}

/// The messages that are complete, and the one that lines are still added to.
pub ghost struct Split {
    pub chunks: Seq<Seq<char>>,
    pub current: Seq<char>,
}

impl Split {
    /// The next line goes behind the open message where both, with the line feed between
    /// them, are within `limit` bytes; otherwise that message is complete and the line
    /// opens another. A line of more than `limit` bytes is cut into messages of its own,
    /// of `limit` characters.
    pub open spec fn line(self, line: Seq<char>, limit: int) -> Split {
        if byte_len(line) > limit {
            Split {
                chunks: (if self.current.len() == 0 {
                    self.chunks
                } else {
                    self.chunks.push(self.current)
                }) + blocks(line, limit),
                current: seq![],
            }
        } else if byte_len(self.current) + byte_len(line) + 1 > limit {
            Split { chunks: self.chunks.push(self.current), current: line }
        } else if self.current.len() == 0 {
            Split { chunks: self.chunks, current: line }
        } else {
            Split { chunks: self.chunks, current: self.current + seq!['\n'] + line }
        }
    }

    /// The lines of a sequence, one after the other.
    pub open spec fn all_lines(lines: Seq<Seq<char>>, limit: int) -> Split
        decreases lines.len(),
    {
        if lines.len() == 0 {
            Split { chunks: seq![], current: seq![] }
        } else {
            Split::all_lines(lines.drop_last(), limit).line(lines.last(), limit)
        }
    }

    /// The messages once there are no more lines.
    pub open spec fn closed(self) -> Seq<Seq<char>> {
        if self.current.len() == 0 {
            self.chunks
        } else {
            self.chunks.push(self.current)
        }
    }
}

/// A text cut into messages at its line ends. Where there would be no message at all,
/// the text itself is the one message.
pub open spec fn messages(s: Seq<char>, limit: int) -> Seq<Seq<char>> {
    let chunks = Split::all_lines(text::split_on(s, '\n'), limit).closed();
    if chunks.len() == 0 {
        seq![s]
    } else {
        chunks
    }
}

/// Cuts a line into blocks of `limit` characters, behind the messages of `chunks`.
fn push_blocks(chunks: &mut Vec<String>, line: &[char], limit: usize)
    requires
        limit > 0 || line@.len() == 0,
    ensures
        text::texts(final(chunks)@) == text::texts(old(chunks)@) + blocks(line@, limit as int),
{
    let n: usize = line.len();
    let mut from: usize = 0;
    let ghost start = text::texts(chunks@);
    assert(line@.skip(0) =~= line@);
    while from < n
        invariant
            limit > 0 || n == 0,
            n == line@.len(),
            from <= n,
            text::texts(chunks@) + blocks(line@.skip(from as int), limit as int) == start + blocks(
                line@,
                limit as int,
            ),
        decreases n - from,
    {
        let ghost rest = line@.skip(from as int);
        let ghost before = text::texts(chunks@);
        let to: usize = if n - from <= limit {
            n
        } else {
            from + limit
        };
        let piece = text_of(slice_subrange(line, from, to));
        chunks.push(piece);
        assert(text::texts(chunks@) =~= before.push(piece@));
        proof {
            if rest.len() <= limit {
                assert(piece@ =~= rest);
                assert(line@.skip(to as int).len() == 0);
            } else {
                assert(piece@ =~= rest.take(limit as int));
                assert(rest.skip(limit as int) =~= line@.skip(to as int));
            }
            assert(before + blocks(rest, limit as int) =~= text::texts(chunks@) + blocks(
                line@.skip(to as int),
                limit as int,
            ));
        }
        from = to;
    }
    assert(line@.skip(from as int).len() == 0);
    assert(text::texts(chunks@) =~= start + blocks(line@, limit as int));
}

/// Cuts a text into messages of at most `limit` characters, at its line ends where that
/// is possible. A limit of 0 is for a text of line feeds alone.
pub fn split_message(text: &str, limit: usize) -> (r: Vec<String>)
    requires
        limit > 0 || forall|i: int| 0 <= i < text@.len() ==> text@[i] == '\n',
    ensures
        text::texts(r@) == messages(text@, limit as int),
{
    let x = chars_of(text);
    let lines = split_chars(x.as_slice(), '\n');
    let ghost all = text::texts(lines@);
    proof {
        if limit == 0 {
            lemma_lines_of_line_feeds(text@);
        }
    }
    let mut chunks: Vec<String> = Vec::new();
    let mut current = String::new();
    let mut i: usize = 0;
    assert(text::texts(chunks@) =~= seq![]);
    assert(all.take(0) =~= seq![]);
    while i < lines.len()
        invariant
            all == text::texts(lines@),
            i <= lines@.len(),
            limit > 0 || forall|k: int| 0 <= k < all.len() ==> (#[trigger] all[k]).len() == 0,
            Split::all_lines(all.take(i as int), limit as int) == (Split {
                chunks: text::texts(chunks@),
                current: current@,
            }),
        decreases lines@.len() - i,
    {
        let line = lines[i].as_str();
        let ghost before = (Split { chunks: text::texts(chunks@), current: current@ });
        assert(all.take(i + 1).drop_last() =~= all.take(i as int));
        assert(all.take(i + 1).last() == line@);
        assert(line@ == all[i as int]);
        let line_bytes: usize = line.as_bytes().len();
        let current_bytes: usize = current.as_str().as_bytes().len();
        if line_bytes > limit {
            if !current.as_str().is_empty() {
                chunks.push(current);
                assert(text::texts(chunks@) =~= before.chunks.push(before.current));
            }
            let line_chars = chars_of(line);
            push_blocks(&mut chunks, line_chars.as_slice(), limit);
            current = String::new();
            assert(current@ =~= seq![]);
        } else {
            if current_bytes >= limit - line_bytes {
                chunks.push(current);
                assert(text::texts(chunks@) =~= before.chunks.push(before.current));
                current = String::new();
            }
            if !current.as_str().is_empty() {
                current.push('\n');
            }
            current.append(line);
            assert(current@ =~= before.line(line@, limit as int).current);
        }
        i += 1;
    }
    assert(all.take(i as int) =~= all);
    let ghost last = (Split { chunks: text::texts(chunks@), current: current@ });
    if !current.as_str().is_empty() {
        chunks.push(current);
        assert(text::texts(chunks@) =~= last.chunks.push(last.current));
    }
    if chunks.is_empty() {
        chunks.push(text_of(x.as_slice()));
        assert(text::texts(chunks@) =~= seq![text@]);
    }
    chunks
}

/// The lines of a text of line feeds alone are empty.
proof fn lemma_lines_of_line_feeds(s: Seq<char>)
    requires
        forall|i: int| 0 <= i < s.len() ==> s[i] == '\n',
    ensures
        forall|k: int|
            0 <= k < text::split_on(s, '\n').len() ==> (#[trigger] text::split_on(
                s,
                '\n',
            )[k]).len() == 0,
    decreases s.len(),
{
    text::lemma_find_char(s, '\n');
    if s.len() > 0 {
        assert(text::find_char(s, '\n') == Some(0int));
        let rest = s.skip(1);
        lemma_lines_of_line_feeds(rest);
        let all = text::split_on(s, '\n');
        assert forall|k: int| 0 <= k < all.len() implies (#[trigger] all[k]).len() == 0 by {
            if k > 0 {
                assert(all[k] == text::split_on(rest, '\n')[k - 1]);
            }
        }
    }
}

proof fn lemma_encode_utf8_add(a: Seq<char>, b: Seq<char>)
    ensures
        vstd::utf8::encode_utf8(a + b) == vstd::utf8::encode_utf8(a) + vstd::utf8::encode_utf8(b),
    decreases a.len(),
{
    if a.len() == 0 {
        assert(a + b =~= b);
    } else {
        assert((a + b).drop_first() =~= a.drop_first() + b);
        lemma_encode_utf8_add(a.drop_first(), b);
    }
}

/// A text has at least as many bytes as characters.
proof fn lemma_byte_len_at_least_len(s: Seq<char>)
    ensures
        s.len() <= byte_len(s),
    decreases s.len(),
{
    if s.len() > 0 {
        lemma_byte_len_at_least_len(s.drop_first());
    }
}

proof fn lemma_byte_len_of_joined(a: Seq<char>, b: Seq<char>)
    ensures
        byte_len(a + seq!['\n'] + b) == byte_len(a) + 1 + byte_len(b),
{
    lemma_encode_utf8_add(a + seq!['\n'], b);
    lemma_encode_utf8_add(a, seq!['\n']);
    let lf: Seq<char> = seq!['\n'];
    reveal_with_fuel(vstd::utf8::encode_utf8, 2);
    assert(lf.drop_first() =~= seq![]);
    assert(vstd::utf8::encode_utf8(lf).len() == 1);
}

proof fn lemma_blocks_fit(line: Seq<char>, limit: int)
    ensures
        forall|k: int|
            0 <= k < blocks(line, limit).len() ==> (#[trigger] blocks(line, limit)[k]).len()
                <= limit,
        limit > 0 && line.len() > 0 ==> blocks(line, limit).len() > 0,
    decreases line.len(),
{
    if 0 < limit < line.len() {
        lemma_blocks_fit(line.skip(limit), limit);
        let all = blocks(line, limit);
        assert forall|k: int| 0 <= k < all.len() implies (#[trigger] all[k]).len() <= limit by {
            if k > 0 {
                assert(all[k] == blocks(line.skip(limit), limit)[k - 1]);
            }
        }
    }
}

/// What holds of the messages while lines are added.
spec fn fits(split: Split, lines: Seq<Seq<char>>, limit: int) -> bool {
    &&& forall|k: int| 0 <= k < split.chunks.len() ==> (#[trigger] split.chunks[k]).len() <= limit
    &&& byte_len(split.current) <= limit
    &&& split.closed().len() == 0 ==> forall|k: int|
        0 <= k < lines.len() ==> (#[trigger] lines[k]).len() == 0
}

proof fn lemma_lines_fit(lines: Seq<Seq<char>>, limit: int)
    requires
        limit > 0,
    ensures
        fits(Split::all_lines(lines, limit), lines, limit),
    decreases lines.len(),
{
    if lines.len() == 0 {
        assert(vstd::utf8::encode_utf8(Seq::<char>::empty()) =~= seq![]);
    } else {
        let front = lines.drop_last();
        let line = lines.last();
        let prev = Split::all_lines(front, limit);
        let next = prev.line(line, limit);
        lemma_lines_fit(front, limit);
        lemma_blocks_fit(line, limit);
        lemma_byte_len_at_least_len(prev.current);
        lemma_byte_len_at_least_len(line);
        lemma_byte_len_of_joined(prev.current, line);
        assert(vstd::utf8::encode_utf8(Seq::<char>::empty()) =~= seq![]);
        if line.len() == 0 {
            assert(line =~= seq![]);
        }
        assert forall|k: int| 0 <= k < next.chunks.len() implies (#[trigger] next.chunks[k]).len()
            <= limit by {
            let n = prev.chunks.len();
            if k < n {
                assert(next.chunks[k] == prev.chunks[k]);
            } else if byte_len(line) > limit {
                let m = if prev.current.len() == 0 {
                    n as int
                } else {
                    n + 1int
                };
                if k >= m {
                    assert(next.chunks[k] == blocks(line, limit)[k - m]);
                }
            }
        }
        if next.closed().len() == 0 {
            assert(prev.closed().len() == 0);
            assert forall|k: int| 0 <= k < lines.len() implies (#[trigger] lines[k]).len() == 0 by {
                if k < front.len() {
                    assert(front[k].len() == 0);
                }
            }
        }
    }
}

/// A text whose lines are all empty holds nothing but line feeds.
proof fn lemma_empty_lines(s: Seq<char>)
    requires
        forall|k: int|
            0 <= k < text::split_on(s, '\n').len() ==> (#[trigger] text::split_on(
                s,
                '\n',
            )[k]).len() == 0,
    ensures
        forall|i: int| 0 <= i < s.len() ==> s[i] == '\n',
    decreases s.len(),
{
    let all = text::split_on(s, '\n');
    text::lemma_find_char(s, '\n');
    assert(all[0].len() == 0);
    match text::find_char(s, '\n') {
        None => {},
        Some(i) => {
            let rest = s.skip(i + 1);
            assert(i == 0);
            assert forall|k: int| 0 <= k < text::split_on(rest, '\n').len() implies (
            #[trigger] text::split_on(rest, '\n')[k]).len() == 0 by {
                assert(text::split_on(rest, '\n')[k] == all[k + 1]);
            }
            lemma_empty_lines(rest);
            assert forall|j: int| 0 <= j < s.len() implies s[j] == '\n' by {
                if j > 0 {
                    assert(s[j] == rest[j - 1]);
                }
            }
        },
    }
}

/// No message has more than `limit` characters. A text of line feeds alone is one message
/// whatever its length, so it is left out where it is longer than the limit.
pub proof fn law_messages_fit(s: Seq<char>, limit: int)
    requires
        limit > 0,
        s.len() <= limit || exists|i: int| 0 <= i < s.len() && s[i] != '\n',
    ensures
        forall|k: int|
            0 <= k < messages(s, limit).len() ==> (#[trigger] messages(s, limit)[k]).len() <= limit,
{
    let lines = text::split_on(s, '\n');
    let split = Split::all_lines(lines, limit);
    lemma_lines_fit(lines, limit);
    lemma_byte_len_at_least_len(split.current);
    if split.closed().len() == 0 {
        lemma_empty_lines(s);
    }
}

/// There is always a message.
pub proof fn law_messages_not_empty(s: Seq<char>, limit: int)
    ensures
        messages(s, limit).len() > 0,
{
}

/// The texts of a sequence, one behind the other.
pub open spec fn glue(parts: Seq<Seq<char>>) -> Seq<char>
    decreases parts.len(),
{
    if parts.len() == 0 {
        seq![]
    } else {
        glue(parts.drop_last()) + parts.last()
    }
}

/// A text without its line feeds.
pub open spec fn without_line_feeds(s: Seq<char>) -> Seq<char> {
    s.filter(|c: char| c != '\n')
}

proof fn lemma_glue_add(a: Seq<Seq<char>>, b: Seq<Seq<char>>)
    ensures
        glue(a + b) == glue(a) + glue(b),
    decreases b.len(),
{
    if b.len() == 0 {
        assert(a + b =~= a);
        assert(glue(b) =~= seq![]);
        assert(glue(a) + glue(b) =~= glue(a));
    } else {
        assert((a + b).drop_last() =~= a + b.drop_last());
        lemma_glue_add(a, b.drop_last());
        assert(glue(a + b) =~= glue(a) + glue(b));
    }
}

proof fn lemma_glue_one(a: Seq<char>)
    ensures
        glue(seq![a]) == a,
{
    reveal_with_fuel(glue, 2);
    assert(seq![a].drop_last() =~= seq![]);
    assert(glue(seq![a]) =~= a);
}

proof fn lemma_glue_push(a: Seq<Seq<char>>, b: Seq<char>)
    ensures
        glue(a.push(b)) == glue(a) + b,
{
    assert(a.push(b).drop_last() =~= a);
}

proof fn lemma_glue_blocks(line: Seq<char>, limit: int)
    requires
        limit > 0 || line.len() == 0,
    ensures
        glue(blocks(line, limit)) == line,
    decreases line.len(),
{
    if limit <= 0 || line.len() == 0 {
        assert(glue(blocks(line, limit)) =~= line);
    } else if line.len() <= limit {
        lemma_glue_one(line);
    } else {
        lemma_glue_blocks(line.skip(limit), limit);
        lemma_glue_add(seq![line.take(limit)], blocks(line.skip(limit), limit));
        lemma_glue_one(line.take(limit));
        assert(line.take(limit) + line.skip(limit) =~= line);
    }
}

proof fn lemma_lf_hidden(a: Seq<char>, b: Seq<char>)
    ensures
        without_line_feeds(a + b) == without_line_feeds(a) + without_line_feeds(b),
        without_line_feeds(a + seq!['\n'] + b) == without_line_feeds(a) + without_line_feeds(b),
{
    let keep = |c: char| c != '\n';
    let lf: Seq<char> = seq!['\n'];
    Seq::filter_distributes_over_add(a, b, keep);
    Seq::filter_distributes_over_add(a + lf, b, keep);
    Seq::filter_distributes_over_add(a, lf, keep);
    reveal_with_fuel(Seq::filter, 2);
    assert(lf.drop_last() =~= seq![]);
    assert(lf.filter(keep) =~= seq![]);
    assert(a.filter(keep) + lf.filter(keep) =~= a.filter(keep));
}

proof fn lemma_lines_kept(lines: Seq<Seq<char>>, limit: int)
    requires
        limit > 0 || forall|k: int| 0 <= k < lines.len() ==> (#[trigger] lines[k]).len() == 0,
    ensures
        ({
            let split = Split::all_lines(lines, limit);
            without_line_feeds(glue(split.chunks) + split.current) == without_line_feeds(
                glue(lines),
            )
        }),
    decreases lines.len(),
{
    if lines.len() == 0 {
        assert(glue(lines) + seq![] =~= glue(lines));
    } else {
        let front = lines.drop_last();
        let line = lines.last();
        let prev = Split::all_lines(front, limit);
        let next = prev.line(line, limit);
        assert forall|k: int| 0 <= k < front.len() && limit <= 0 implies (#[trigger] front[k]).len()
            == 0 by {
            assert(front[k] == lines[k]);
        }
        lemma_lines_kept(front, limit);
        lemma_glue_push(prev.chunks, prev.current);
        let all = glue(prev.chunks) + prev.current;
        lemma_lf_hidden(all, line);
        lemma_lf_hidden(glue(front), line);
        if byte_len(line) > limit {
            assert(limit > 0 || line.len() == 0);
            lemma_glue_blocks(line, limit);
            if prev.current.len() == 0 {
                lemma_glue_add(prev.chunks, blocks(line, limit));
            } else {
                lemma_glue_add(prev.chunks.push(prev.current), blocks(line, limit));
            }
            assert(glue(next.chunks) + next.current =~= all + line);
        } else if byte_len(prev.current) + byte_len(line) + 1 > limit {
            assert(glue(next.chunks) + next.current =~= all + line);
        } else if prev.current.len() == 0 {
            assert(glue(next.chunks) + next.current =~= all + line);
        } else {
            assert(glue(next.chunks) + next.current =~= all + seq!['\n'] + line);
        }
    }
}

proof fn lemma_split_kept(s: Seq<char>)
    ensures
        without_line_feeds(glue(text::split_on(s, '\n'))) == without_line_feeds(s),
    decreases s.len(),
{
    text::lemma_find_char(s, '\n');
    match text::find_char(s, '\n') {
        None => {
            lemma_glue_one(s);
        },
        Some(i) => {
            let head = s.take(i);
            let rest = s.skip(i + 1);
            lemma_split_kept(rest);
            lemma_glue_one(head);
            lemma_glue_add(seq![head], text::split_on(rest, '\n'));
            lemma_lf_hidden(head, rest);
            lemma_lf_hidden(head, glue(text::split_on(rest, '\n')));
            assert(head + seq!['\n'] + rest =~= s);
        },
    }
}

/// Nothing of a text is lost, doubled or moved but its line feeds: the messages, one
/// behind the other, hold its other characters in their order.
pub proof fn law_messages_keep_the_text(s: Seq<char>, limit: int)
    requires
        limit > 0 || forall|i: int| 0 <= i < s.len() ==> s[i] == '\n',
    ensures
        without_line_feeds(glue(messages(s, limit))) == without_line_feeds(s),
{
    let lines = text::split_on(s, '\n');
    let split = Split::all_lines(lines, limit);
    if limit <= 0 {
        lemma_lines_of_line_feeds(s);
    }
    lemma_lines_kept(lines, limit);
    lemma_split_kept(s);
    lemma_glue_one(s);
    if split.current.len() > 0 {
        lemma_glue_push(split.chunks, split.current);
    } else {
        assert(glue(split.chunks) + split.current =~= glue(split.chunks));
    }
}

/// A line that is short enough to leave room for a line feed is a message by itself.
pub proof fn law_short_line_is_one_message(line: Seq<char>, limit: int)
    requires
        !line.contains('\n'),
        vstd::utf8::encode_utf8(line).len() + 1 <= limit,
    ensures
        messages(line, limit) == seq![line],
{
    text::law_split(line, '\n', seq![]);
    lemma_first_line(line, limit);
    if line.len() > 0 {
        assert(messages(line, limit) =~= seq![line]);
    }
}

/// What one line by itself comes to.
proof fn lemma_first_line(line: Seq<char>, limit: int)
    ensures
        Split::all_lines(seq![line], limit) == (Split { chunks: seq![], current: seq![] }).line(
            line,
            limit,
        ),
        byte_len(Seq::<char>::empty()) == 0,
{
    assert(seq![line].drop_last() =~= seq![]);
    reveal_with_fuel(Split::all_lines, 2);
    assert(vstd::utf8::encode_utf8(Seq::<char>::empty()) =~= seq![]);
}

/// A line of more bytes than the limit is cut into pieces that are the line again: each has
/// as many characters as the limit, but for the last, which has some.
pub proof fn law_long_line_is_cut_into_full_pieces(line: Seq<char>, limit: int)
    requires
        limit > 0,
        !line.contains('\n'),
        vstd::utf8::encode_utf8(line).len() > limit,
    ensures
        ({
            let m = messages(line, limit);
            &&& m.flatten() == line
            &&& forall|k: int| 0 <= k < m.len() - 1 ==> (#[trigger] m[k]).len() == limit
            &&& m.len() > 0 && 0 < m.last().len() <= limit
        }),
{
    text::law_split(line, '\n', seq![]);
    lemma_first_line(line, limit);
    if line.len() == 0 {
        assert(line =~= seq![]);
    }
    lemma_blocks_are_full(line, limit);
    assert(messages(line, limit) =~= blocks(line, limit));
}

proof fn lemma_blocks_are_full(line: Seq<char>, limit: int)
    requires
        limit > 0,
        line.len() > 0,
    ensures
        ({
            let m = blocks(line, limit);
            &&& m.flatten() == line
            &&& forall|k: int| 0 <= k < m.len() - 1 ==> (#[trigger] m[k]).len() == limit
            &&& m.len() > 0 && 0 < m.last().len() <= limit
        }),
    decreases line.len(),
{
    let m = blocks(line, limit);
    if line.len() <= limit {
        m.lemma_flatten_one_element();
    } else {
        let rest = line.skip(limit);
        lemma_blocks_are_full(rest, limit);
        let more = blocks(rest, limit);
        assert(m.drop_first() =~= more);
        assert(line.take(limit) + rest =~= line);
        assert(m.last() == more.last());
        assert forall|k: int| 0 <= k < m.len() - 1 implies (#[trigger] m[k]).len() == limit by {
            if k > 0 {
                assert(m[k] == more[k - 1]);
            }
        }
    }
}

/// The next line of a text goes behind the last message, with a line feed between them, just
/// where both and the line feed are within the limit; otherwise it is the next message. The
/// messages before stay what they are.
pub proof fn law_next_line_joins_or_follows(s: Seq<char>, before: Seq<char>, line: Seq<char>, limit: int)
    requires
        limit > 0,
        s == before || text::has_suffix(s, seq!['\n'] + before),
        !before.contains('\n'),
        before.len() > 0,
        vstd::utf8::encode_utf8(before).len() <= limit,
        !line.contains('\n'),
        line.len() > 0,
        vstd::utf8::encode_utf8(line).len() <= limit,
    ensures
        ({
            let m = messages(s, limit);
            messages(s + seq!['\n'] + line, limit) == if vstd::utf8::encode_utf8(m.last()).len() + 1
                + vstd::utf8::encode_utf8(line).len() <= limit {
                m.drop_last().push(m.last() + seq!['\n'] + line)
            } else {
                m.push(line)
            }
        }),
{
    let lines = text::split_on(s, '\n');
    lemma_last_line(s, before);
    memory_log::lemma_split_last(s, '\n', line);
    let all = lines.push(line);
    assert(all.drop_last() =~= lines);
    let prev = Split::all_lines(lines, limit);
    lemma_open_message(lines, limit);
    assert(messages(s, limit) =~= prev.chunks.push(prev.current));
    let m = messages(s, limit);
    assert(m.last() == prev.current);
    assert(m.drop_last() =~= prev.chunks);
}

/// The last line of a text.
proof fn lemma_last_line(s: Seq<char>, before: Seq<char>)
    requires
        s == before || text::has_suffix(s, seq!['\n'] + before),
        !before.contains('\n'),
    ensures
        text::split_on(s, '\n').len() > 0,
        text::split_on(s, '\n').last() == before,
{
    if s == before {
        text::law_split(before, '\n', seq![]);
    } else {
        let end = seq!['\n'] + before;
        let i = s.len() - end.len();
        let a = s.take(i);
        assert(s =~= a + seq!['\n'] + before) by {
            assert forall|k: int| i <= k < s.len() implies s[k] == end[k - i] by {
                assert(s.subrange(i, i + end.len())[k - i] == s[k]);
            }
        }
        memory_log::lemma_split_last(a, '\n', before);
    }
}

/// Behind a line that is not empty and within the limit, a message is open.
proof fn lemma_open_message(lines: Seq<Seq<char>>, limit: int)
    requires
        lines.len() > 0,
        lines.last().len() > 0,
        byte_len(lines.last()) <= limit,
    ensures
        Split::all_lines(lines, limit).current.len() > 0,
{
}

/// A long line behind another line begins messages of its own.
pub proof fn law_long_line_stands_alone(s: Seq<char>, before: Seq<char>, line: Seq<char>, limit: int)
    requires
        limit > 0,
        s == before || text::has_suffix(s, seq!['\n'] + before),
        !before.contains('\n'),
        before.len() > 0,
        vstd::utf8::encode_utf8(before).len() <= limit,
        !line.contains('\n'),
        vstd::utf8::encode_utf8(line).len() > limit,
    ensures
        messages(s + seq!['\n'] + line, limit) == messages(s, limit) + messages(line, limit),
{
    let lines = text::split_on(s, '\n');
    lemma_last_line(s, before);
    memory_log::lemma_split_last(s, '\n', line);
    let all = lines.push(line);
    assert(all.drop_last() =~= lines);
    let prev = Split::all_lines(lines, limit);
    lemma_open_message(lines, limit);
    text::law_split(line, '\n', seq![]);
    lemma_first_line(line, limit);
    if line.len() == 0 {
        assert(line =~= seq![]);
    }
    lemma_blocks_are_full(line, limit);
    assert(messages(line, limit) =~= blocks(line, limit));
    assert(messages(s, limit) =~= prev.chunks.push(prev.current));
    assert(messages(s + seq!['\n'] + line, limit) =~= prev.chunks.push(prev.current) + blocks(
        line,
        limit,
    ));
}

/// Whether all lines of a text have something in them, and none is longer than the limit.
pub open spec fn has_plain_lines(s: Seq<char>, limit: int) -> bool {
    let lines = text::split_on(s, '\n');
    forall|k: int|
        0 <= k < lines.len() ==> 0 < (#[trigger] lines[k]).len() && vstd::utf8::encode_utf8(
            lines[k],
        ).len() <= limit
}

/// Line feeds are kept: where no line is empty and none is longer than the limit, the
/// messages that are not empty, with line feeds between them, are the text itself.
pub proof fn law_messages_are_the_text(s: Seq<char>, limit: int)
    requires
        limit > 0,
        has_plain_lines(s, limit),
    ensures
        text::join(messages(s, limit).filter(|m: Seq<char>| m.len() > 0), seq!['\n']) == s,
{
    let lines = text::split_on(s, '\n');
    memory_log::lemma_join_split(s);
    lemma_lines_joined(lines, limit);
    let split = Split::all_lines(lines, limit);
    assert(lines.len() > 0) by {
        text::lemma_find_char(s, '\n');
    }
    assert(lines[lines.len() - 1].len() > 0);
    lemma_open_message(lines, limit);
    assert(messages(s, limit) =~= split.chunks.push(split.current));
}

proof fn lemma_lines_joined(lines: Seq<Seq<char>>, limit: int)
    requires
        forall|k: int|
            0 <= k < lines.len() ==> 0 < (#[trigger] lines[k]).len() && byte_len(lines[k])
                <= limit,
    ensures
        ({
            let split = Split::all_lines(lines, limit);
            let some = |m: Seq<char>| m.len() > 0;
            lines.len() > 0 ==> text::join(
                split.chunks.push(split.current).filter(some),
                seq!['\n'],
            ) == text::join(lines, seq!['\n'])
        }),
        lines.len() == 0 ==> Split::all_lines(lines, limit) == (Split {
            chunks: seq![],
            current: seq![],
        }),
    decreases lines.len(),
{
    reveal(Seq::filter);
    let some = |m: Seq<char>| m.len() > 0;
    let lf: Seq<char> = seq!['\n'];
    if lines.len() > 0 {
        let front = lines.drop_last();
        let line = lines.last();
        assert(line == lines[lines.len() - 1]);
        assert forall|k: int| 0 <= k < front.len() implies 0 < (#[trigger] front[k]).len()
            && byte_len(front[k]) <= limit by {
            assert(front[k] == lines[k]);
        }
        lemma_lines_joined(front, limit);
        let prev = Split::all_lines(front, limit);
        let next = prev.line(line, limit);
        let before = prev.chunks.push(prev.current);
        let after = next.chunks.push(next.current);
        assert(before.drop_last() =~= prev.chunks);
        assert(after.drop_last() =~= next.chunks);
        if front.len() == 0 {
            let none: Seq<Seq<char>> = seq![];
            assert(none.filter(some) =~= seq![]);
            assert(before.filter(some) =~= seq![]);
            assert(after.filter(some) =~= seq![line]) by {
                assert(next.chunks =~= seq![] || next.chunks =~= before);
            }
            assert(lines =~= seq![line]);
        } else {
            assert(front.last() == front[front.len() - 1]);
            lemma_open_message(front, limit);
            assert(before.filter(some) =~= prev.chunks.filter(some).push(prev.current));
            let kept = prev.chunks.filter(some);
            let a = kept.push(prev.current);
            assert(a.drop_last() =~= kept);
            assert(lines.drop_last() =~= front);
            if byte_len(prev.current) + byte_len(line) + 1 > limit {
                assert(after =~= before.push(line));
                assert(after.filter(some) =~= a.push(line));
                assert(a.push(line).drop_last() =~= a);
            } else {
                let joined = prev.current + lf + line;
                assert(after =~= prev.chunks.push(joined));
                assert(after.filter(some) =~= kept.push(joined));
                assert(kept.push(joined).drop_last() =~= kept);
                if kept.len() == 0 {
                    assert(a =~= seq![prev.current]);
                    assert(kept.push(joined) =~= seq![joined]);
                } else {
                    let k = text::join(kept, lf);
                    assert(k + lf + joined =~= k + lf + prev.current + lf + line);
                }
            }
        }
    }
}

/// A text that leaves room for a line feed and does not begin with one is one message, as it
/// is.
pub proof fn law_text_that_fits_is_one_message(s: Seq<char>, limit: int)
    requires
        s.len() > 0,
        s[0] != '\n',
        vstd::utf8::encode_utf8(s).len() + 1 <= limit,
    ensures
        messages(s, limit) == seq![s],
{
    let lines = text::split_on(s, '\n');
    memory_log::lemma_join_split(s);
    text::lemma_find_char(s, '\n');
    assert(lines.len() > 0 && lines[0].len() > 0) by {
        match text::find_char(s, '\n') {
            None => {},
            Some(i) => {
                assert(i > 0);
                assert(lines[0] == s.take(i));
            },
        }
    }
    lemma_lines_in_one(lines, limit);
    assert(messages(s, limit) =~= seq![s]);
}

proof fn lemma_lines_in_one(lines: Seq<Seq<char>>, limit: int)
    requires
        lines.len() > 0,
        lines[0].len() > 0,
        byte_len(text::join(lines, seq!['\n'])) + 1 <= limit,
    ensures
        Split::all_lines(lines, limit) == (Split {
            chunks: seq![],
            current: text::join(lines, seq!['\n']),
        }),
        text::join(lines, seq!['\n']).len() > 0,
    decreases lines.len(),
{
    let lf: Seq<char> = seq!['\n'];
    if lines.len() == 1 {
        assert(lines =~= seq![lines[0]]);
        lemma_first_line(lines[0], limit);
    } else {
        let front = lines.drop_last();
        let line = lines.last();
        lemma_byte_len_of_joined(text::join(front, lf), line);
        lemma_lines_in_one(front, limit);
    }
}

/// Some line feeds.
pub open spec fn line_feeds(n: nat) -> Seq<char> {
    Seq::new(n, |i: int| '\n')
}

/// Empty lines in a message are kept: a line that comes behind `n` of them goes behind the
/// last message with all the line feeds between, where all that is within the limit; where
/// only the line feeds are, they stay there and the line is the next message.
pub proof fn law_empty_lines_are_kept(
    s: Seq<char>,
    before: Seq<char>,
    n: nat,
    line: Seq<char>,
    limit: int,
)
    requires
        s == before || text::has_suffix(s, seq!['\n'] + before),
        !before.contains('\n'),
        before.len() > 0,
        vstd::utf8::encode_utf8(before).len() <= limit,
        !line.contains('\n'),
        line.len() > 0,
        vstd::utf8::encode_utf8(line).len() <= limit,
        vstd::utf8::encode_utf8(messages(s, limit).last()).len() + n <= limit,
    ensures
        messages(s + line_feeds(n + 1) + line, limit) == if vstd::utf8::encode_utf8(
            messages(s, limit).last(),
        ).len() + n + 1 + vstd::utf8::encode_utf8(line).len() <= limit {
            messages(s, limit).drop_last().push(
                messages(s, limit).last() + line_feeds(n + 1) + line,
            )
        } else {
            messages(s, limit).drop_last().push(messages(s, limit).last() + line_feeds(n)).push(
                line,
            )
        },
{
    lemma_last_line(s, before);
    lemma_open_message(text::split_on(s, '\n'), limit);
    let prev = Split::all_lines(text::split_on(s, '\n'), limit);
    assert(messages(s, limit) =~= prev.chunks.push(prev.current));
    assert(messages(s, limit).last() == prev.current);
    assert(messages(s, limit).drop_last() =~= prev.chunks);
    lemma_empty_lines_behind(s, n, limit);
    let t = s + line_feeds(n);
    memory_log::lemma_split_last(t, '\n', line);
    assert(s + line_feeds(n + 1) + line =~= t + seq!['\n'] + line);
    let lines = text::split_on(t, '\n');
    assert(lines.push(line).drop_last() =~= lines);
    let mid = Split::all_lines(lines, limit);
    lemma_byte_len_of_line_feeds(prev.current, n);
    assert(prev.current + line_feeds(n) + seq!['\n'] + line =~= prev.current + line_feeds(n + 1)
        + line);
    let next = mid.line(line, limit);
    if byte_len(prev.current) + n + 1 + byte_len(line) <= limit {
        assert(next.current == prev.current + line_feeds(n + 1) + line);
        assert(next.closed() =~= prev.chunks.push(next.current));
    } else {
        assert(next.closed() =~= prev.chunks.push(mid.current).push(line));
    }
}

proof fn lemma_byte_len_of_line_feeds(a: Seq<char>, n: nat)
    ensures
        byte_len(a + line_feeds(n)) == byte_len(a) + n,
    decreases n,
{
    if n == 0 {
        assert(a + line_feeds(0) =~= a);
    } else {
        let m = (n - 1) as nat;
        lemma_byte_len_of_line_feeds(a, m);
        let none: Seq<char> = seq![];
        lemma_byte_len_of_joined(a + line_feeds(m), none);
        assert(vstd::utf8::encode_utf8(none) =~= seq![]);
        assert(a + line_feeds(n) =~= a + line_feeds(m) + seq!['\n'] + none);
    }
}

proof fn lemma_empty_lines_behind(s: Seq<char>, n: nat, limit: int)
    requires
        ({
            let prev = Split::all_lines(text::split_on(s, '\n'), limit);
            prev.current.len() > 0 && byte_len(prev.current) + n <= limit
        }),
    ensures
        ({
            let prev = Split::all_lines(text::split_on(s, '\n'), limit);
            Split::all_lines(text::split_on(s + line_feeds(n), '\n'), limit) == (Split {
                chunks: prev.chunks,
                current: prev.current + line_feeds(n),
            })
        }),
    decreases n,
{
    let prev = Split::all_lines(text::split_on(s, '\n'), limit);
    if n == 0 {
        assert(s + line_feeds(0) =~= s);
        assert(prev.current + line_feeds(0) =~= prev.current);
    } else {
        let m = (n - 1) as nat;
        lemma_empty_lines_behind(s, m, limit);
        let none: Seq<char> = seq![];
        let t = s + line_feeds(m);
        memory_log::lemma_split_last(t, '\n', none);
        assert(s + line_feeds(n) =~= t + seq!['\n'] + none);
        let lines = text::split_on(t, '\n');
        assert(lines.push(none).drop_last() =~= lines);
        lemma_byte_len_of_line_feeds(prev.current, m);
        assert(vstd::utf8::encode_utf8(none) =~= seq![]);
        assert(prev.current + line_feeds(m) + seq!['\n'] + none =~= prev.current + line_feeds(n));
    }
}

/// Line feeds at the end of a text: those that have room are kept in the last message, and
/// one that has none is dropped.
pub proof fn law_line_feeds_at_the_end(s: Seq<char>, before: Seq<char>, n: nat, limit: int)
    requires
        limit > 0,
        s == before || text::has_suffix(s, seq!['\n'] + before),
        !before.contains('\n'),
        before.len() > 0,
        vstd::utf8::encode_utf8(before).len() <= limit,
    ensures
        vstd::utf8::encode_utf8(messages(s, limit).last()).len() + n <= limit ==> messages(
            s + line_feeds(n),
            limit,
        ) == messages(s, limit).drop_last().push(messages(s, limit).last() + line_feeds(n)),
        vstd::utf8::encode_utf8(messages(s, limit).last()).len() + 1 > limit ==> messages(
            s + seq!['\n'],
            limit,
        ) == messages(s, limit),
{
    lemma_last_line(s, before);
    let lines = text::split_on(s, '\n');
    lemma_open_message(lines, limit);
    let prev = Split::all_lines(lines, limit);
    assert(messages(s, limit) =~= prev.chunks.push(prev.current));
    assert(messages(s, limit).last() == prev.current);
    assert(messages(s, limit).drop_last() =~= prev.chunks);
    if byte_len(prev.current) + n <= limit {
        lemma_empty_lines_behind(s, n, limit);
        assert(messages(s + line_feeds(n), limit) =~= prev.chunks.push(
            prev.current + line_feeds(n),
        ));
    }
    if byte_len(prev.current) + 1 > limit {
        let none: Seq<char> = seq![];
        memory_log::lemma_split_last(s, '\n', none);
        assert(s + seq!['\n'] + none =~= s + seq!['\n']);
        assert(lines.push(none).drop_last() =~= lines);
        assert(vstd::utf8::encode_utf8(none) =~= seq![]);
        assert(messages(s + seq!['\n'], limit) =~= prev.chunks.push(prev.current));
    }
}

/// Behind a long line another message begins. One more line is that message, where it leaves
/// room for a line feed; where it has just the length of the limit, an empty message stands in
/// front of it; and an empty line is nothing.
pub proof fn law_line_behind_a_long_line(
    s: Seq<char>,
    before: Seq<char>,
    line: Seq<char>,
    limit: int,
)
    requires
        limit > 0,
        s == before || text::has_suffix(s, seq!['\n'] + before),
        !before.contains('\n'),
        vstd::utf8::encode_utf8(before).len() > limit,
        !line.contains('\n'),
        vstd::utf8::encode_utf8(line).len() <= limit,
    ensures
        line.len() == 0 ==> messages(s + seq!['\n'] + line, limit) == messages(s, limit),
        line.len() > 0 && vstd::utf8::encode_utf8(line).len() < limit ==> messages(
            s + seq!['\n'] + line,
            limit,
        ) == messages(s, limit).push(line),
        line.len() > 0 && vstd::utf8::encode_utf8(line).len() == limit ==> messages(
            s + seq!['\n'] + line,
            limit,
        ) == messages(s, limit).push(seq![]).push(line),
{
    let lines = text::split_on(s, '\n');
    lemma_last_line(s, before);
    memory_log::lemma_split_last(s, '\n', line);
    assert(lines.push(line).drop_last() =~= lines);
    let prev = Split::all_lines(lines, limit);
    assert(prev.current =~= seq![]);
    let none: Seq<char> = seq![];
    assert(vstd::utf8::encode_utf8(none) =~= seq![]);
    if before.len() == 0 {
        assert(before =~= none);
    }
    lemma_blocks_fit(before, limit);
    assert(messages(s, limit) == prev.chunks);
    if line.len() == 0 {
        assert(line =~= none);
        assert(messages(s + seq!['\n'] + line, limit) =~= prev.chunks);
    } else if byte_len(line) < limit {
        assert(messages(s + seq!['\n'] + line, limit) =~= prev.chunks.push(line));
    } else {
        assert(messages(s + seq!['\n'] + line, limit) =~= prev.chunks.push(none).push(line));
    }
}

/// Line feeds in front of a text are dropped, unless there is nothing else.
pub proof fn law_line_feeds_in_front(s: Seq<char>, limit: int)
    requires
        limit > 0,
        exists|i: int| 0 <= i < s.len() && s[i] != '\n',
    ensures
        messages(seq!['\n'] + s, limit) == messages(s, limit),
{
    let none: Seq<char> = seq![];
    let t = seq!['\n'] + s;
    assert(none + seq!['\n'] + s =~= t);
    text::law_split(none, '\n', s);
    let lines = text::split_on(s, '\n');
    lemma_empty_line_first(lines, limit);
    lemma_lines_fit(lines, limit);
    if Split::all_lines(lines, limit).closed().len() == 0 {
        lemma_empty_lines(s);
    }
}

proof fn lemma_empty_line_first(lines: Seq<Seq<char>>, limit: int)
    requires
        limit > 0,
    ensures
        Split::all_lines(seq![Seq::<char>::empty()] + lines, limit) == Split::all_lines(
            lines,
            limit,
        ),
    decreases lines.len(),
{
    let none: Seq<char> = seq![];
    let all = seq![none] + lines;
    if lines.len() == 0 {
        assert(all =~= seq![none]);
        lemma_first_line(none, limit);
    } else {
        assert(all.drop_last() =~= seq![none] + lines.drop_last());
        lemma_empty_line_first(lines.drop_last(), limit);
    }
}

/// A line that is just as long as the limit is a message behind an empty one.
pub proof fn law_line_as_long_as_the_limit(line: Seq<char>, limit: int)
    requires
        limit > 0,
        !line.contains('\n'),
        vstd::utf8::encode_utf8(line).len() == limit,
    ensures
        messages(line, limit) == seq![Seq::<char>::empty(), line],
{
    text::law_split(line, '\n', seq![]);
    lemma_first_line(line, limit);
    if line.len() == 0 {
        assert(line =~= seq![]);
    }
    assert(messages(line, limit) =~= seq![Seq::<char>::empty(), line]);
}

}
