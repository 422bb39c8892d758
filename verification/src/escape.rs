//! HTML escaping.

use vstd::prelude::*;
use vstd::string::StringExecFns;

use crate::text;
use crate::text::chars_of;

verus! {

/// What stands for a character in HTML.
pub open spec fn escaped_char(c: char) -> Seq<char> {
    if c == '&' {
        "&amp;"@
    } else if c == '<' {
        "&lt;"@
    } else if c == '>' {
        "&gt;"@
    } else if c == '"' {
        "&quot;"@
    } else {
        seq![c]
    }
}

/// A text in HTML, character by character.
pub open spec fn escaped(s: Seq<char>) -> Seq<char>
    decreases s.len(),
{
    if s.len() == 0 {
        seq![]
    } else {
        escaped(s.drop_last()) + escaped_char(s.last())
    }
}

/// A text in which each `from` is replaced by `to`.
pub open spec fn replaced(s: Seq<char>, from: char, to: Seq<char>) -> Seq<char>
    decreases s.len(),
{
    if s.len() == 0 {
        seq![]
    } else {
        replaced(s.drop_last(), from, to) + (if s.last() == from {
            to
        } else {
            seq![s.last()]
        })
    }
}

/// Escapes a text for HTML.
pub fn html_escape(s: &str) -> (r: String)
    ensures
        r@ == escaped(s@),
{
    let x = chars_of(s);
    let mut r = String::new();
    let mut i: usize = 0;
    while i < x.len()
        invariant
            x@ == s@,
            i <= x@.len(),
            r@ == escaped(s@.take(i as int)),
        decreases x@.len() - i,
    {
        let c = x[i];
        let ghost before = r@;
        if c == '&' {
            r.append("&amp;");
        } else if c == '<' {
            r.append("&lt;");
        } else if c == '>' {
            r.append("&gt;");
        } else if c == '"' {
            r.append("&quot;");
        } else {
            r.push(c);
        }
        assert(r@ =~= before + escaped_char(c));
        assert(s@.take(i + 1).drop_last() =~= s@.take(i as int));
        i += 1;
    }
    assert(s@.take(i as int) =~= s@);
    r
}

/// Replaces each `from` of a text by `to`.
pub fn replace_char(s: &str, from: char, to: &str) -> (r: String)
    ensures
        r@ == replaced(s@, from, to@),
{
    let x = chars_of(s);
    let mut r = String::new();
    let mut i: usize = 0;
    while i < x.len()
        invariant
            x@ == s@,
            i <= x@.len(),
            r@ == replaced(s@.take(i as int), from, to@),
        decreases x@.len() - i,
    {
        let c = x[i];
        let ghost before = r@;
        if c == from {
            r.append(to);
        } else {
            r.push(c);
        }
        assert(r@ =~= before + (if c == from {
            to@
        } else {
            seq![c]
        }));
        assert(s@.take(i + 1).drop_last() =~= s@.take(i as int));
        i += 1;
    }
    assert(s@.take(i as int) =~= s@);
    r
}

/// An escaped text holds no character that opens or closes a tag or an attribute.
pub proof fn law_escaped_is_inert(s: Seq<char>)
    ensures
        forall|i: int|
            0 <= i < escaped(s).len() ==> {
                let c = #[trigger] escaped(s)[i];
                c != '<' && c != '>' && c != '"'
            },
    decreases s.len(),
{
    if s.len() > 0 {
        law_escaped_is_inert(s.drop_last());
        reveal_strlit("&amp;");
        reveal_strlit("&lt;");
        reveal_strlit("&gt;");
        reveal_strlit("&quot;");
        let front = escaped(s.drop_last());
        let back = escaped_char(s.last());
        assert forall|i: int| 0 <= i < escaped(s).len() implies ({
            let c = #[trigger] escaped(s)[i];
            c != '<' && c != '>' && c != '"'
        }) by {
            if i < front.len() {
                assert(escaped(s)[i] == front[i]);
            } else {
                assert(escaped(s)[i] == back[i - front.len()]);
            }
        }
    }
}

proof fn lemma_escaped_front(s: Seq<char>)
    requires
        s.len() > 0,
    ensures
        escaped(s) == escaped_char(s[0]) + escaped(s.drop_first()),
    decreases s.len(),
{
    if s.len() == 1 {
        assert(s.drop_last() =~= seq![]);
        assert(s.drop_first() =~= seq![]);
        assert(escaped(s.drop_last()) =~= seq![]);
        assert(escaped(s) =~= escaped_char(s[0]) + escaped(s.drop_first()));
    } else {
        lemma_escaped_front(s.drop_last());
        assert(s.drop_last().drop_first() =~= s.drop_first().drop_last());
        assert(s.drop_first().last() == s.last());
        assert(escaped(s) =~= escaped_char(s[0]) + escaped(s.drop_first()));
    }
}

/// Different texts stay different: an escaped text tells the text that it shows.
pub proof fn law_escaped_is_faithful(a: Seq<char>, b: Seq<char>)
    requires
        escaped(a) == escaped(b),
    ensures
        a == b,
    decreases a.len(),
{
    reveal_strlit("&amp;");
    reveal_strlit("&lt;");
    reveal_strlit("&gt;");
    reveal_strlit("&quot;");
    if a.len() > 0 {
        lemma_escaped_front(a);
    }
    if b.len() > 0 {
        lemma_escaped_front(b);
    }
    if a.len() > 0 && b.len() > 0 {
        let e = escaped(a);
        let x = escaped_char(a[0]);
        let y = escaped_char(b[0]);
        assert(e[0] == x[0]);
        assert(e[0] == y[0]);
        if x.len() > 1 && y.len() > 1 {
            assert(e[1] == x[1]);
            assert(e[1] == y[1]);
        }
        assert(a[0] == b[0]);
        assert(escaped(a.drop_first()) =~= e.skip(x.len() as int));
        assert(escaped(b.drop_first()) =~= e.skip(y.len() as int));
        law_escaped_is_faithful(a.drop_first(), b.drop_first());
        assert(a =~= seq![a[0]] + a.drop_first());
        assert(b =~= seq![b[0]] + b.drop_first());
    } else {
        if a.len() > 0 {
            assert(escaped(a)[0] == escaped_char(a[0])[0]);
            assert(escaped(b).len() == 0);
        }
        if b.len() > 0 {
            assert(escaped(b)[0] == escaped_char(b[0])[0]);
            assert(escaped(a).len() == 0);
        }
        assert(a =~= b);
    }
}

/// A text in which each copy of `from` is replaced by `to`, from the front on.
pub open spec fn replaced_text(s: Seq<char>, from: Seq<char>, to: Seq<char>) -> Seq<char>
    decreases s.len(),
{
    if s.len() == 0 || from.len() == 0 {
        s
    } else if text::has_prefix(s, from) {
        to + replaced_text(s.skip(from.len() as int), from, to)
    } else {
        seq![s[0]] + replaced_text(s.drop_first(), from, to)
    }
}

/// A text in which the four entities are undone, the ampersand last.
pub open spec fn unescaped(s: Seq<char>) -> Seq<char> {
    replaced_text(
        replaced_text(
            replaced_text(replaced_text(s, "&quot;"@, seq!['"']), "&gt;"@, seq!['>']),
            "&lt;"@,
            seq!['<'],
        ),
        "&amp;"@,
        seq!['&'],
    )
}

/// Escaping can be undone: nothing is lost, and nothing is escaped twice.
pub proof fn law_escaping_can_be_undone(s: Seq<char>)
    ensures
        unescaped(escaped(s)) == s,
{
    lemma_all_escaped(s);
    lemma_one_undone(s, 4);
    lemma_one_undone(s, 3);
    lemma_one_undone(s, 2);
    lemma_one_undone(s, 1);
    lemma_none_escaped(s);
}

/// The characters that are escaped, in the order in which that is done.
spec fn special(k: int) -> char {
    if k == 1 {
        '&'
    } else if k == 2 {
        '<'
    } else if k == 3 {
        '>'
    } else {
        '"'
    }
}

/// A character where only the first `k` special ones are escaped.
spec fn partly_escaped_char(c: char, k: int) -> Seq<char> {
    if c == '&' && k >= 1 || c == '<' && k >= 2 || c == '>' && k >= 3 || c == '"' && k >= 4 {
        escaped_char(c)
    } else {
        seq![c]
    }
}

spec fn partly_escaped(s: Seq<char>, k: int) -> Seq<char>
    decreases s.len(),
{
    if s.len() == 0 {
        seq![]
    } else {
        partly_escaped_char(s[0], k) + partly_escaped(s.drop_first(), k)
    }
}

proof fn lemma_all_escaped(s: Seq<char>)
    ensures
        partly_escaped(s, 4) == escaped(s),
    decreases s.len(),
{
    if s.len() > 0 {
        lemma_escaped_front(s);
        lemma_all_escaped(s.drop_first());
    }
}

proof fn lemma_none_escaped(s: Seq<char>)
    ensures
        partly_escaped(s, 0) == s,
    decreases s.len(),
{
    if s.len() > 0 {
        lemma_none_escaped(s.drop_first());
        assert(seq![s[0]] + s.drop_first() =~= s);
    }
}

/// Undoing the entity of the last special character leaves the others.
proof fn lemma_one_undone(s: Seq<char>, k: int)
    requires
        1 <= k <= 4,
    ensures
        replaced_text(partly_escaped(s, k), escaped_char(special(k)), seq![special(k)])
            == partly_escaped(s, k - 1),
    decreases s.len(),
{
    reveal_strlit("&amp;");
    reveal_strlit("&lt;");
    reveal_strlit("&gt;");
    reveal_strlit("&quot;");
    let entity = escaped_char(special(k));
    let to = seq![special(k)];
    if s.len() > 0 {
        let c = s[0];
        let head = partly_escaped_char(c, k);
        let rest = partly_escaped(s.drop_first(), k);
        lemma_one_undone(s.drop_first(), k);
        if c == special(k) {
            assert((head + rest).subrange(0, entity.len() as int) =~= entity);
            assert((head + rest).skip(entity.len() as int) =~= rest);
        } else {
            if head[0] == '&' {
                assert(head[1] != entity[1] || head[2] != entity[2]);
            }
            lemma_copied(head, rest, entity, to);
        }
    }
}

/// A piece of text in which the entity does not begin is copied.
proof fn lemma_copied(piece: Seq<char>, rest: Seq<char>, entity: Seq<char>, to: Seq<char>)
    requires
        piece.len() > 0,
        entity.len() > 2,
        entity[0] == '&',
        forall|i: int| 1 <= i < piece.len() ==> piece[i] != '&',
        piece[0] == '&' ==> piece.len() > 2 && (piece[1] != entity[1] || piece[2] != entity[2]),
    ensures
        replaced_text(piece + rest, entity, to) == piece + replaced_text(rest, entity, to),
    decreases piece.len(),
{
    let all = piece + rest;
    if text::has_prefix(all, entity) {
        let front = all.subrange(0, entity.len() as int);
        assert(front[0] == all[0]);
        assert(front[1] == all[1]);
        assert(front[2] == all[2]);
    }
    let less = piece.drop_first();
    assert(all.drop_first() =~= less + rest);
    let tail = replaced_text(rest, entity, to);
    if less.len() > 0 {
        lemma_copied(less, rest, entity, to);
    } else {
        assert(less + rest =~= rest);
        assert(less + tail =~= tail);
    }
    assert(seq![piece[0]] + (less + tail) =~= piece + tail);
}

/// Replacing a character is putting the new text between the pieces that it stands between.
pub proof fn law_replaced_is_joined(s: Seq<char>, from: char, to: Seq<char>)
    ensures
        replaced(s, from, to) == text::join(text::split_on(s, from), to),
    decreases s.len(),
{
    let pieces = text::split_on(s, from);
    text::lemma_find_char(s, from);
    if s.len() == 0 {
        assert(text::split_on(s, from) == seq![s]);
        assert(s =~= seq![]);
    } else {
        let front = s.drop_last();
        law_replaced_is_joined(front, from, to);
        lemma_split_grown(front, s.last(), from);
        assert(s =~= front.push(s.last()));
        let before = text::split_on(front, from);
        if s.last() == from {
            let none: Seq<char> = seq![];
            assert(pieces.drop_last() =~= before);
            assert(text::join(before, to) + to + none =~= text::join(before, to) + to);
        } else {
            let n = before.len();
            assert(pieces.drop_last() =~= before.drop_last());
            if n > 1 {
                let j = text::join(before.drop_last(), to);
                assert(j + to + before.last().push(s.last()) =~= j + to + before.last()
                    + seq![s.last()]);
            } else {
                assert(before.last().push(s.last()) =~= before.last() + seq![s.last()]);
            }
        }
    }
}

/// The pieces of a text with one character more.
proof fn lemma_split_grown(s: Seq<char>, c: char, sep: char)
    ensures
        text::split_on(s, sep).len() > 0,
        c == sep ==> text::split_on(s.push(c), sep) == text::split_on(s, sep).push(seq![]),
        c != sep ==> text::split_on(s.push(c), sep) == text::split_on(s, sep).drop_last().push(
            text::split_on(s, sep).last().push(c),
        ),
    decreases s.len(),
{
    let t = s.push(c);
    let none: Seq<char> = seq![];
    text::lemma_find_char(s, sep);
    match text::find_char(s, sep) {
        None => {
            if c == sep {
                assert(t =~= s + seq![sep] + none);
                text::law_split(s, sep, none);
                text::law_split(none, sep, none);
                assert(seq![s] + seq![none] =~= seq![s].push(none));
            } else {
                assert forall|j: int| 0 <= j < t.len() implies t[j] != sep by {
                    if j < s.len() {
                        assert(s.contains(s[j]));
                    }
                }
                text::law_split(t, sep, none);
                assert(seq![s].drop_last().push(t) =~= seq![t]);
            }
        },
        Some(i) => {
            let head = s.take(i);
            let rest = s.skip(i + 1);
            lemma_split_grown(rest, c, sep);
            assert(s =~= head + seq![sep] + rest);
            assert(t =~= head + seq![sep] + rest.push(c));
            text::law_split(head, sep, rest);
            text::law_split(head, sep, rest.push(c));
            let p = text::split_on(rest, sep);
            assert(seq![head] + p.push(none) =~= (seq![head] + p).push(none));
            assert(seq![head] + p.drop_last().push(p.last().push(c)) =~= (seq![head]
                + p).drop_last().push(p.last().push(c)));
        },
    }
}

}
