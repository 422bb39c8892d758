//! The pages of the web interface.

use vstd::prelude::*;
use vstd::string::StringExecFns;

use crate::clock;
use crate::clock::LocalTime;
use crate::escape;
use crate::escape::html_escape;
use crate::escape::replace_char;
use crate::memory_log;
use crate::memory_log::read_last_entries;
use crate::memory_log::ChatEntry;
use crate::memory_log::Entry;
use crate::number;
use crate::number::decimal_text;
use crate::reply;
use crate::reply::strip_think_tags;
use crate::text;

verus! {

/// The page that holds the other two in frames.
pub const INDEX_PAGE: &'static str = r#"<!DOCTYPE HTML PUBLIC "-//W3C//DTD HTML 4.01 Frameset//EN"
  "http://www.w3.org/TR/html4/frameset.dtd">
<html>
<head>
<meta http-equiv="Content-Type" content="text/html; charset=UTF-8">
<title>月見ヤチヨ チャット</title>
</head>
<frameset rows="70%,30%" border="1" framespacing="2">
  <frame src="/messages" name="messages" scrolling="yes" marginwidth="6" marginheight="6">
  <frame src="/chat"     name="chat"     scrolling="no"  marginwidth="6" marginheight="6" noresize>
  <noframes>
  <body>
  <p>このページを表示するにはフレームに対応したブラウザが必要です。</p>
  </body>
  </noframes>
</frameset>
</html>"#;

/// The page with the form.
pub const CHAT_PAGE: &'static str = r#"<!DOCTYPE HTML PUBLIC "-//W3C//DTD HTML 4.01 Transitional//EN"
  "http://www.w3.org/TR/html4/loose.dtd">
<html>
<head>
<meta http-equiv="Content-Type" content="text/html; charset=UTF-8">
<title>入力</title>
<style type="text/css">
body {
  font-family: MS PGothic, Osaka, sans-serif;
  font-size: 13px;
  background-color: #ddeeff;
  margin: 6px;
  padding: 0;
}
p.label {
  margin: 4px 0 4px 0;
  font-weight: bold;
  font-size: 13px;
  color: #333;
}
table.form-table {
  width: 100%;
  border-collapse: collapse;
}
table.form-table td {
  vertical-align: middle;
  padding: 3px;
}
td.input-cell {
  width: 100%;
}
#msg-input {
  width: 100%;
  padding: 5px;
  font-size: 13px;
  border: 1px solid #888;
  font-family: MS PGothic, Osaka, sans-serif;
  box-sizing: border-box;
}
#msg-textarea {
  width: 100%;
  padding: 5px;
  font-size: 13px;
  border: 1px solid #888;
  font-family: MS PGothic, Osaka, sans-serif;
  box-sizing: border-box;
  resize: vertical;
}
input[type="submit"], input[type="button"] {
  padding: 5px 10px;
  font-size: 12px;
  background-color: #ccccff;
  border: 1px solid #6666cc;
  cursor: pointer;
  white-space: nowrap;
  font-family: MS PGothic, Osaka, sans-serif;
}
.file-row {
  margin-top: 4px;
}
input[type="file"] {
  font-size: 12px;
  font-family: MS PGothic, Osaka, sans-serif;
}
p.note {
  font-size: 11px;
  color: #555;
  margin: 3px 0 0 0;
}
p.mode-note {
  font-size: 11px;
  color: #666;
  margin: 2px 0 0 0;
}
</style>
<script type="text/javascript">
// 現在のモード: false=1行（Enter送信）, true=テキストエリア（改行可）
var textareaMode = false;

function getCurrentValue() {
  var el = document.getElementById('msg-input') || document.getElementById('msg-textarea');
  return el ? el.value : '';
}

function bindEnterSend(el) {
  el.onkeydown = function(e) {
    var key = e.keyCode || e.which;
    if (key == 13) {
      submitForm();
      return false;
    }
  };
}

function submitForm() {
  var f = document.getElementById('chat-form');
  if (f) f.submit();
}

function toggleMode() {
  var curVal = getCurrentValue();
  var cell = document.getElementById('input-cell');
  var btn  = document.getElementById('toggle-btn');
  var note = document.getElementById('mode-note');
  textareaMode = !textareaMode;

  if (textareaMode) {
    // テキストエリアモード: Shift+Enter で送信、Enter は改行
    var ta = document.createElement('textarea');
    ta.id = 'msg-textarea';
    ta.name = 'message';
    ta.rows = 3;
    ta.maxLength = 2000;
    ta.placeholder = 'メッセージを入力... （Shift+Enter で送信）';
    ta.onkeydown = function(e) {
      var key = e.keyCode || e.which;
      if (key == 13 && e.shiftKey) {
        submitForm();
        return false;
      }
    };
    cell.innerHTML = '';
    cell.appendChild(ta);
    ta.value = curVal;
    ta.focus();
    btn.value = '1行モードに切替';
    note.innerHTML = 'テキストエリアモード（Enter=改行 / Shift+Enter=送信）';
  } else {
    // 1行モード: Enter で送信
    var inp = document.createElement('input');
    inp.type = 'text';
    inp.id = 'msg-input';
    inp.name = 'message';
    inp.maxLength = 500;
    inp.placeholder = 'メッセージを入力... （Enter で送信）';
    bindEnterSend(inp);
    cell.innerHTML = '';
    cell.appendChild(inp);
    inp.value = curVal;
    inp.focus();
    btn.value = 'テキストエリアモードに切替';
    note.innerHTML = '1行モード（Enter=送信）';
  }
}

window.onload = function() {
  // デフォルト: 1行モード / Enter送信
  var inp = document.getElementById('msg-input');
  if (inp) {
    bindEnterSend(inp);
    inp.focus();
  }
};
</script>
</head>
<body>
<p class="label">ヤチヨに話しかける：</p>
<form id="chat-form" method="POST" action="/send" enctype="multipart/form-data">
<table class="form-table">
<tr>
  <td class="input-cell" id="input-cell">
    <input type="text" id="msg-input" name="message" maxlength="500"
           placeholder="メッセージを入力... （Enter で送信）">
  </td>
  <td>
    <input type="submit" value="送信">
  </td>
</tr>
</table>
<div class="file-row">
  <input type="file" name="images" accept="image/jpeg,image/png,image/webp" multiple>
  &nbsp;
  <input type="button" id="toggle-btn" value="テキストエリアモードに切替"
         onclick="toggleMode()">
</div>
</form>
<p id="mode-note" class="mode-note">1行モード（Enter=送信）</p>
<p class="note">※ 画像はJPEG・PNG・WebP対応。送信後、上のログ欄に返事が表示されます（最大30秒かかる場合があります）</p>
</body>
</html>"#;

/// What the page of messages begins with.
pub const MESSAGES_HEAD: &'static str = r#"<!DOCTYPE HTML PUBLIC "-//W3C//DTD HTML 4.01 Transitional//EN"
  "http://www.w3.org/TR/html4/loose.dtd">
<html>
<head>
<meta http-equiv="Content-Type" content="text/html; charset=UTF-8">
<meta http-equiv="refresh" content="10">
<title>ログ</title>
<style type="text/css">
body {
  font-family: MS PGothic, Osaka, sans-serif;
  font-size: 13px;
  background-color: #efefef;
  color: #000;
  margin: 6px;
  padding: 0;
}
h2 {
  font-size: 14px;
  border-bottom: 2px solid #800000;
  padding-bottom: 3px;
  margin-bottom: 8px;
  color: #800000;
}
dl.post {
  background-color: #fff;
  border: 1px solid #bbb;
  margin: 0 0 8px 0;
  padding: 5px 8px;
}
dt {
  font-size: 12px;
  color: #333;
  font-weight: bold;
  margin-bottom: 3px;
}
.num {
  color: #000080;
  margin-right: 6px;
}
.ts {
  color: #666;
  font-weight: normal;
  margin-left: 8px;
}
dd {
  margin: 2px 0 6px 12px;
  line-height: 1.6;
  word-break: break-all;
}
.user-msg {
  color: #222;
}
.bot-header {
  color: #800000;
  font-size: 12px;
  margin-top: 4px;
}
.bot-msg {
  color: #000066;
}
.empty {
  color: #666;
  font-style: italic;
}
.img-row {
  margin: 4px 0 4px 12px;
  display: block;
}
.img-row a {
  display: inline-block;
  margin-right: 4px;
  margin-bottom: 4px;
}
.thumb {
  max-width: 160px;
  max-height: 160px;
  border: 1px solid #aaa;
  vertical-align: top;
  cursor: pointer;
}
p.footer {
  font-size: 11px;
  color: #888;
  text-align: right;
  margin-top: 4px;
}
</style>
</head>
<body>
<h2>月見ヤチヨ チャット ─ 最近の会話（直近5件）</h2>
"#;

/// What the page of messages ends with.
pub const MESSAGES_TAIL: &'static str = r#"
<p class="footer">（10秒ごとに自動更新）</p>
</body>
</html>"#;

/// How many exchanges are shown.
pub const SHOWN_ENTRIES: usize = 5;

/// The page that holds the other two in frames.
pub fn index_page() -> (r: &'static str)
    ensures
        r@ == INDEX_PAGE@,
{
    INDEX_PAGE
}

/// The page with the form.
pub fn chat_page() -> (r: &'static str)
    ensures
        r@ == CHAT_PAGE@,
{
    CHAT_PAGE
}

/// A small image that leads to the full one.
pub open spec fn thumb(name: Seq<char>) -> Seq<char> {
    "<a href=\"/images/web/"@ + escape::escaped(name) + "\" target=\"_blank\"><img src=\"/images/web/"@
        + escape::escaped(name) + "\" class=\"thumb\" alt=\"添付画像\"></a>"@
}

pub open spec fn thumbs(names: Seq<Seq<char>>) -> Seq<char>
    decreases names.len(),
{
    if names.len() == 0 {
        seq![]
    } else {
        thumbs(names.drop_last()) + thumb(names.last())
    }
}

/// The images of an exchange; nothing where there are none.
pub open spec fn image_row(names: Seq<Seq<char>>) -> Seq<char> {
    if names.len() == 0 {
        seq![]
    } else {
        "<dd class=\"img-row\">"@ + thumbs(names) + "</dd>"@
    }
}

/// What is shown of an answer: no thoughts, no markup, and line breaks for line feeds.
pub open spec fn shown_answer(bot: Seq<char>) -> Seq<char> {
    escape::replaced(
        escape::escaped(text::trim(reply::without_think(bot))),
        '\n',
        "<br>"@,
    )
}

/// An exchange on the page.
pub open spec fn post(num: nat, e: Entry) -> Seq<char> {
    "<dl class=\"post\">\n  <dt><span class=\"num\">"@ + number::decimal(num)
        + "</span> 名無しさん <span class=\"ts\">"@ + escape::escaped(e.time)
        + "</span></dt>\n  "@ + image_row(e.images) + "<dd class=\"user-msg\">"@
        + escape::escaped(e.user)
        + "</dd>\n  <dt class=\"bot-header\">↓ 月見ヤチヨ</dt>\n  <dd class=\"bot-msg\">"@
        + shown_answer(e.bot) + "</dd>\n</dl>\n"@
}

/// The last `k` of the exchanges, the newest first and numbered from 1.
pub open spec fn posts(entries: Seq<Entry>, k: nat) -> Seq<char>
    decreases k,
{
    if k == 0 {
        seq![]
    } else {
        posts(entries, (k - 1) as nat) + post(k, entries[entries.len() - k])
    }
}

/// The page of messages.
pub open spec fn page(entries: Seq<Entry>) -> Seq<char> {
    MESSAGES_HEAD@ + (if entries.len() == 0 {
        "<p class=\"empty\">まだ会話ログがないよ〜。下のフォームから話しかけてみてね！</p>"@
    } else {
        posts(entries, entries.len())
    }) + MESSAGES_TAIL@
}

fn add_thumb(out: &mut String, name: &str)
    ensures
        final(out)@ == old(out)@ + thumb(name@),
{
    let esc = html_escape(name);
    let ghost start = out@;
    out.append("<a href=\"/images/web/");
    out.append(esc.as_str());
    out.append("\" target=\"_blank\"><img src=\"/images/web/");
    out.append(esc.as_str());
    out.append("\" class=\"thumb\" alt=\"添付画像\"></a>");
    assert(out@ =~= start + thumb(name@));
}

fn image_row_of(names: &Vec<String>) -> (r: String)
    ensures
        r@ == image_row(text::texts(names@)),
{
    if names.len() == 0 {
        return String::new();
    }
    let mut out = String::from_str("<dd class=\"img-row\">");
    let ghost start = out@;
    let ghost all = text::texts(names@);
    let mut i: usize = 0;
    while i < names.len()
        invariant
            i <= names@.len(),
            all == text::texts(names@),
            out@ =~= start + thumbs(all.take(i as int)),
        decreases names@.len() - i,
    {
        assert(all.take(i + 1).drop_last() =~= all.take(i as int));
        let ghost before = thumbs(all.take(i as int));
        add_thumb(&mut out, names[i].as_str());
        assert(start + before + thumb(all[i as int]) =~= start + (before + thumb(all[i as int])));
        i += 1;
    }
    assert(all.take(all.len() as int) =~= all);
    out.append("</dd>");
    out
}

fn add_post(out: &mut String, num: u64, e: &ChatEntry)
    ensures
        final(out)@ == old(out)@ + post(num as nat, e@),
{
    let user_esc = html_escape(e.user_text.as_str());
    let bot_esc = replace_char(
        html_escape(strip_think_tags(e.bot_reply.as_str()).as_str()).as_str(),
        '\n',
        "<br>",
    );
    let images_html = image_row_of(&e.image_filenames);
    let ghost start = out@;
    let mut p = String::from_str("<dl class=\"post\">\n  <dt><span class=\"num\">");
    p.append(decimal_text(num).as_str());
    p.append("</span> 名無しさん <span class=\"ts\">");
    p.append(html_escape(e.timestamp.as_str()).as_str());
    p.append("</span></dt>\n  ");
    p.append(images_html.as_str());
    p.append("<dd class=\"user-msg\">");
    p.append(user_esc.as_str());
    p.append("</dd>\n  <dt class=\"bot-header\">↓ 月見ヤチヨ</dt>\n  <dd class=\"bot-msg\">");
    p.append(bot_esc.as_str());
    p.append("</dd>\n</dl>\n");
    out.append(p.as_str());
}

/// The page that shows some exchanges.
pub fn render_messages(entries: &Vec<ChatEntry>) -> (r: String)
    ensures
        r@ == page(memory_log::entries_view(entries@)),
{
    let mut posts_html = String::new();
    let ghost all = memory_log::entries_view(entries@);
    if entries.len() == 0 {
        posts_html.append(
            "<p class=\"empty\">まだ会話ログがないよ〜。下のフォームから話しかけてみてね！</p>",
        );
    } else {
        let n: usize = entries.len();
        let mut i: usize = 0;
        while i < n
            invariant
                n == entries@.len(),
                i <= n,
                all == memory_log::entries_view(entries@),
                posts_html@ =~= posts(all, i as nat),
            decreases n - i,
        {
            assert(all[n - 1 - i] == entries@[n - 1 - i]@);
            add_post(&mut posts_html, i as u64 + 1, &entries[n - 1 - i]);
            i += 1;
        }
    }
    let mut out = String::from_str(MESSAGES_HEAD);
    out.append(posts_html.as_str());
    out.append(MESSAGES_TAIL);
    out
}

/// The page that shows the last exchanges of a log.
pub fn messages_page(log: &str) -> (r: String)
    ensures
        r@ == page(memory_log::last_of(memory_log::log_entries(log@), SHOWN_ENTRIES as int)),
{
    render_messages(&read_last_entries(log, SHOWN_ENTRIES))
}

/// Once an exchange was appended to the log, it is the first on the page, with number 1.
pub proof fn law_newest_exchange_is_shown_first(
    log: Seq<char>,
    at: LocalTime,
    user: Seq<char>,
    bot: Seq<char>,
)
    requires
        memory_log::is_loggable_message(user),
        memory_log::is_loggable_answer(bot),
    ensures
        ({
            let time = clock::formatted(at, "%Y-%m-%d %H:%M:%S"@);
            let new_log = log + memory_log::entry_text(time, user, bot);
            let shown = page(
                memory_log::last_of(memory_log::log_entries(new_log), SHOWN_ENTRIES as int),
            );
            let first = post(
                1,
                Entry {
                    time,
                    images: memory_log::parsed_message(user).0,
                    user: memory_log::parsed_message(user).1,
                    bot,
                },
            );
            (MESSAGES_HEAD@ + first).is_prefix_of(shown)
        }),
{
    let time = clock::formatted(at, "%Y-%m-%d %H:%M:%S"@);
    let new_log = log + memory_log::entry_text(time, user, bot);
    memory_log::law_appended_entry_is_read_back(log, at, user, bot);
    let entries = memory_log::last_of(memory_log::log_entries(new_log), SHOWN_ENTRIES as int);
    lemma_first_post(entries, entries.len());
    let shown = page(entries);
    let first = post(1, entries.last());
    let n = (MESSAGES_HEAD@ + first).len() as int;
    assert forall|i: int| 0 <= i < n implies shown[i] == (MESSAGES_HEAD@ + first)[i] by {
        if i >= MESSAGES_HEAD@.len() {
            assert(posts(entries, entries.len())[i - MESSAGES_HEAD@.len()] == first[i
                - MESSAGES_HEAD@.len()]);
        }
    }
}

proof fn lemma_first_post(entries: Seq<Entry>, k: nat)
    requires
        1 <= k <= entries.len(),
    ensures
        post(1, entries.last()).is_prefix_of(posts(entries, k)),
    decreases k,
{
    if k == 1 {
        assert(posts(entries, 0) =~= seq![]);
        assert(posts(entries, 1) =~= post(1, entries.last()));
    } else {
        lemma_first_post(entries, (k - 1) as nat);
        let before = posts(entries, (k - 1) as nat);
        let all = posts(entries, k);
        assert forall|i: int| 0 <= i < post(1, entries.last()).len() implies all[i] == post(
            1,
            entries.last(),
        )[i] by {
            assert(all[i] == before[i]);
        }
    }
}

/// An answer cannot become markup: before its line feeds become line breaks, what is shown
/// of it holds no character that opens or closes a tag or an attribute.
pub proof fn law_shown_answer_is_inert(bot: Seq<char>)
    ensures
        ({
            let answer = text::trim(reply::without_think(bot));
            &&& shown_answer(bot) == escape::replaced(escape::escaped(answer), '\n', "<br>"@)
            &&& forall|i: int|
                0 <= i < escape::escaped(answer).len() ==> {
                    let c = #[trigger] escape::escaped(answer)[i];
                    c != '<' && c != '>' && c != '"'
                }
        }),
{
    escape::law_escaped_is_inert(text::trim(reply::without_think(bot)));
}

/// The page shows the last five exchanges of a log, or all where there are fewer: as post `k`
/// the `k`-th newest, for every `k`, and nothing else between its head and its end.
pub proof fn law_page_shows_the_last_five(log: Seq<char>)
    ensures
        ({
            let all = memory_log::log_entries(log);
            let n: nat = if all.len() < 5 {
                all.len()
            } else {
                5
            };
            let shown = page(memory_log::last_of(all, SHOWN_ENTRIES as int));
            all.len() > 0 ==> shown == MESSAGES_HEAD@ + Seq::new(
                n,
                |i: int| post((i + 1) as nat, all[all.len() - 1 - i]),
            ).flatten_alt() + MESSAGES_TAIL@
        }),
        memory_log::log_entries(log).len() == 0 ==> page(
            memory_log::last_of(memory_log::log_entries(log), SHOWN_ENTRIES as int),
        ) == MESSAGES_HEAD@
            + "<p class=\"empty\">まだ会話ログがないよ〜。下のフォームから話しかけてみてね！</p>"@
            + MESSAGES_TAIL@,
{
    let all = memory_log::log_entries(log);
    let n: nat = if all.len() < 5 {
        all.len()
    } else {
        5
    };
    memory_log::law_last_items(all, 5);
    let last = memory_log::last_of(all, SHOWN_ENTRIES as int);
    assert(last.len() == n);
    lemma_posts(all, last, n);
}

proof fn lemma_posts(all: Seq<Entry>, last: Seq<Entry>, k: nat)
    requires
        k <= last.len() <= all.len(),
        forall|i: int|
            0 <= i < last.len() ==> #[trigger] last[i] == all[all.len() - last.len() + i],
    ensures
        posts(last, k) == Seq::new(
            k,
            |i: int| post((i + 1) as nat, all[all.len() - 1 - i]),
        ).flatten_alt(),
    decreases k,
{
    let f = |i: int| post((i + 1) as nat, all[all.len() - 1 - i]);
    if k > 0 {
        lemma_posts(all, last, (k - 1) as nat);
        assert(Seq::new(k, f).drop_last() =~= Seq::new((k - 1) as nat, f));
        assert(last[last.len() - k] == all[all.len() - k]);
    }
}

/// What a post is: its number, the time, the images, the message and the answer, each made
/// harmless, and the answer without its thoughts and with line breaks.
pub proof fn law_post(num: nat, e: Entry)
    ensures
        post(num, e) == "<dl class=\"post\">\n  <dt><span class=\"num\">"@ + number::decimal(num)
            + "</span> 名無しさん <span class=\"ts\">"@ + escape::escaped(e.time)
            + "</span></dt>\n  "@ + (if e.images.len() == 0 {
            seq![]
        } else {
            "<dd class=\"img-row\">"@ + Seq::new(
                e.images.len(),
                |i: int|
                    "<a href=\"/images/web/"@ + escape::escaped(e.images[i])
                        + "\" target=\"_blank\"><img src=\"/images/web/"@ + escape::escaped(
                        e.images[i],
                    ) + "\" class=\"thumb\" alt=\"添付画像\"></a>"@,
            ).flatten_alt() + "</dd>"@
        }) + "<dd class=\"user-msg\">"@ + escape::escaped(e.user)
            + "</dd>\n  <dt class=\"bot-header\">↓ 月見ヤチヨ</dt>\n  <dd class=\"bot-msg\">"@
            + text::join(
            text::split_on(escape::escaped(text::trim(reply::without_think(e.bot))), '\n'),
            "<br>"@,
        ) + "</dd>\n</dl>\n"@,
{
    lemma_thumbs(e.images);
    escape::law_replaced_is_joined(
        escape::escaped(text::trim(reply::without_think(e.bot))),
        '\n',
        "<br>"@,
    );
}

proof fn lemma_thumbs(names: Seq<Seq<char>>)
    ensures
        thumbs(names) == Seq::new(
            names.len(),
            |i: int|
                "<a href=\"/images/web/"@ + escape::escaped(names[i])
                    + "\" target=\"_blank\"><img src=\"/images/web/"@ + escape::escaped(names[i])
                    + "\" class=\"thumb\" alt=\"添付画像\"></a>"@,
        ).flatten_alt(),
    decreases names.len(),
{
    if names.len() > 0 {
        let front = names.drop_last();
        lemma_thumbs(front);
        let f = |i: int|
            "<a href=\"/images/web/"@ + escape::escaped(names[i])
                + "\" target=\"_blank\"><img src=\"/images/web/"@ + escape::escaped(names[i])
                + "\" class=\"thumb\" alt=\"添付画像\"></a>"@;
        let g = |i: int|
            "<a href=\"/images/web/"@ + escape::escaped(front[i])
                + "\" target=\"_blank\"><img src=\"/images/web/"@ + escape::escaped(front[i])
                + "\" class=\"thumb\" alt=\"添付画像\"></a>"@;
        assert(Seq::new(names.len(), f).drop_last() =~= Seq::new(front.len(), g));
    }
}

}
