//! Text as a sequence of characters: trimming, searching, splitting and joining.
//!
//! The specification functions work on `Seq<char>`, the view of `str` and `String`.
//! The executable ones work on slices of characters, so that a position is always a
//! number of characters.

use vstd::prelude::*;
use vstd::slice::slice_subrange;
use vstd::string::StringExecFns;

verus! {

/// `String::push` puts one character behind the text.
pub assume_specification[ String::push ](s: &mut String, c: char)
    ensures
        final(s)@ == old(s)@.push(c),
;

// ---------------------------------------------------------------------------
// Models
// ---------------------------------------------------------------------------
/// The characters with the Unicode property `White_Space`.
pub open spec fn is_white_space(c: char) -> bool {
    ||| '\u{9}' <= c <= '\u{d}'
    ||| c == ' '
    ||| c == '\u{85}'
    ||| c == '\u{a0}'
    ||| c == '\u{1680}'
    ||| '\u{2000}' <= c <= '\u{200a}'
    ||| c == '\u{2028}'
    ||| c == '\u{2029}'
    ||| c == '\u{202f}'
    ||| c == '\u{205f}'
    ||| c == '\u{3000}'
}

/// The text without the white space in front.
pub open spec fn trim_start(s: Seq<char>) -> Seq<char>
    decreases s.len(),
{
    if s.len() > 0 && is_white_space(s[0]) {
        trim_start(s.drop_first())
    } else {
        s
    }
}

/// The text without the white space at its end.
pub open spec fn trim_end(s: Seq<char>) -> Seq<char>
    decreases s.len(),
{
    if s.len() > 0 && is_white_space(s.last()) {
        trim_end(s.drop_last())
    } else {
        s
    }
}

/// The text without the white space around it.
pub open spec fn trim(s: Seq<char>) -> Seq<char> {
    trim_end(trim_start(s))
}

/// The text without the characters `c` in front.
pub open spec fn trim_start_char(s: Seq<char>, c: char) -> Seq<char>
    decreases s.len(),
{
    if s.len() > 0 && s[0] == c {
        trim_start_char(s.drop_first(), c)
    } else {
        s
    }
}

/// The text without the characters `c` at its end.
pub open spec fn trim_end_char(s: Seq<char>, c: char) -> Seq<char>
    decreases s.len(),
{
    if s.len() > 0 && s.last() == c {
        trim_end_char(s.drop_last(), c)
    } else {
        s
    }
}

/// `p` stands at position `i` of `s`.
pub open spec fn occurs_at(s: Seq<char>, p: Seq<char>, i: int) -> bool {
    &&& 0 <= i
    &&& i + p.len() <= s.len()
    &&& s.subrange(i, i + p.len()) == p
}

/// `i` is the first position of `s` at which `p` stands.
pub open spec fn first_at(s: Seq<char>, p: Seq<char>, i: int) -> bool {
    &&& occurs_at(s, p, i)
    &&& forall|j: int| 0 <= j < i ==> !occurs_at(s, p, j)
}

/// `p` stands somewhere in `s`.
pub open spec fn has_text(s: Seq<char>, p: Seq<char>) -> bool {
    exists|i: int| occurs_at(s, p, i)
}

/// `s` begins with `p`.
pub open spec fn has_prefix(s: Seq<char>, p: Seq<char>) -> bool {
    occurs_at(s, p, 0)
}

/// `s` ends with `p`.
pub open spec fn has_suffix(s: Seq<char>, p: Seq<char>) -> bool {
    occurs_at(s, p, s.len() - p.len())
}

/// What follows the prefix `p`; nothing where `s` does not begin with it.
pub open spec fn after_prefix(s: Seq<char>, p: Seq<char>) -> Option<Seq<char>> {
    if has_prefix(s, p) {
        Some(s.skip(p.len() as int))
    } else {
        None
    }
}

/// The first position of `s` at which `p` stands, where there is one.
pub open spec fn find(s: Seq<char>, p: Seq<char>) -> Option<int>
    decreases s.len(),
{
    if has_prefix(s, p) {
        Some(0)
    } else if s.len() == 0 {
        None
    } else {
        match find(s.drop_first(), p) {
            Some(i) => Some(i + 1),
            None => None,
        }
    }
}

/// The text without the copies of `p` in front.
pub open spec fn trim_start_text(s: Seq<char>, p: Seq<char>) -> Seq<char>
    decreases s.len(),
{
    if p.len() > 0 && has_prefix(s, p) {
        trim_start_text(s.skip(p.len() as int), p)
    } else {
        s
    }
}

/// The text without the copies of `p` at its end.
pub open spec fn trim_end_text(s: Seq<char>, p: Seq<char>) -> Seq<char>
    decreases s.len(),
{
    if p.len() > 0 && has_suffix(s, p) {
        trim_end_text(s.take(s.len() - p.len()), p)
    } else {
        s
    }
}

/// The first position of `c` in `s`, where there is one.
pub open spec fn find_char(s: Seq<char>, c: char) -> Option<int>
    decreases s.len(),
{
    if s.len() == 0 {
        None
    } else if s[0] == c {
        Some(0)
    } else {
        match find_char(s.drop_first(), c) {
            Some(i) => Some(i + 1),
            None => None,
        }
    }
}

/// The pieces of `s` between the characters `c`: always at least one.
pub open spec fn split_on(s: Seq<char>, c: char) -> Seq<Seq<char>>
    decreases s.len(),
    via split_on_shrinks
{
    match find_char(s, c) {
        None => seq![s],
        Some(i) => seq![s.take(i)] + split_on(s.skip(i + 1), c),
    }
}

#[via_fn]
proof fn split_on_shrinks(s: Seq<char>, c: char) {
    lemma_find_char(s, c);
}

/// A line without the carriage return that ends it.
pub open spec fn without_cr(line: Seq<char>) -> Seq<char> {
    if line.len() > 0 && line.last() == '\r' {
        line.drop_last()
    } else {
        line
    }
}

/// The lines of a text. A line ends with a line feed, in front of which one carriage
/// return may stand; the last line need not be ended.
pub open spec fn lines(s: Seq<char>) -> Seq<Seq<char>>
    decreases s.len(),
    via lines_shrinks
{
    if s.len() == 0 {
        seq![]
    } else {
        match find_char(s, '\n') {
            None => seq![s],
            Some(i) => seq![without_cr(s.take(i))] + lines(s.skip(i + 1)),
        }
    }
}

#[via_fn]
proof fn lines_shrinks(s: Seq<char>) {
    lemma_find_char(s, '\n');
}

/// The texts of a sequence, with `sep` between them.
pub open spec fn join(parts: Seq<Seq<char>>, sep: Seq<char>) -> Seq<char>
    decreases parts.len(),
{
    if parts.len() == 0 {
        seq![]
    } else if parts.len() == 1 {
        parts[0]
    } else {
        join(parts.drop_last(), sep) + sep + parts.last()
    }
}

/// The texts of a sequence, trimmed, without those that are then empty.
pub open spec fn trimmed_parts(parts: Seq<Seq<char>>) -> Seq<Seq<char>> {
    parts.map_values(|p: Seq<char>| trim(p)).filter(|p: Seq<char>| p.len() > 0)
}

/// The views of a sequence of strings.
pub open spec fn texts(v: Seq<String>) -> Seq<Seq<char>> {
    v.map_values(|s: String| s@)
}

/// A text that may be missing.
pub open spec fn opt_text(o: Option<String>) -> Option<Seq<char>> {
    match o {
        Some(s) => Some(s@),
        None => None,
    }
}

/// A text, or another where there is none.
pub open spec fn or_else(o: Option<String>, default: Seq<char>) -> Seq<char> {
    match o {
        Some(s) => s@,
        None => default,
    }
}

// ---------------------------------------------------------------------------
// Facts about the models
// ---------------------------------------------------------------------------
pub proof fn lemma_find_char(s: Seq<char>, c: char)
    ensures
        match find_char(s, c) {
            Some(i) => 0 <= i < s.len() && s[i] == c && !s.take(i).contains(c),
            None => !s.contains(c),
        },
    decreases s.len(),
{
    if s.len() > 0 && s[0] != c {
        let rest = s.drop_first();
        lemma_find_char(rest, c);
        match find_char(rest, c) {
            Some(i) => {
                assert forall|j: int| 0 <= j < i + 1 implies s[j] != c by {
                    if j > 0 {
                        assert(rest.take(i)[j - 1] == s[j]);
                    }
                }
            },
            None => {
                assert forall|j: int| 0 <= j < s.len() implies s[j] != c by {
                    if j > 0 {
                        assert(rest[j - 1] == s[j]);
                    }
                }
            },
        }
    }
}

/// The first position of a character is the one in front of which it does not stand.
pub proof fn lemma_find_char_is(s: Seq<char>, c: char, i: int)
    requires
        0 <= i < s.len(),
        s[i] == c,
        forall|j: int| 0 <= j < i ==> s[j] != c,
    ensures
        find_char(s, c) == Some(i),
{
    lemma_find_char(s, c);
    match find_char(s, c) {
        Some(k) => {
            if i < k {
                assert(s.take(k)[i] == c);
            }
        },
        None => {
            assert(s.contains(c));
        },
    }
}

pub proof fn lemma_find_char_none(s: Seq<char>, c: char)
    requires
        forall|j: int| 0 <= j < s.len() ==> s[j] != c,
    ensures
        find_char(s, c) is None,
{
    lemma_find_char(s, c);
}

/// Trimming takes a part of a text, at whose ends no white space is.
pub proof fn lemma_trim(s: Seq<char>)
    ensures
        ({
            let t = trim(s);
            &&& forall|i: int| 0 <= i < t.len() ==> s.contains(#[trigger] t[i])
            &&& t.len() > 0 ==> !is_white_space(t[0]) && !is_white_space(t.last())
            &&& s.len() > 0 && !is_white_space(s[0]) ==> t.len() > 0 && t[0] == s[0]
        }),
{
    let front = trim_start(s);
    lemma_trim_start(s);
    lemma_trim_end(front);
    let t = trim(s);
    assert forall|i: int| 0 <= i < t.len() implies s.contains(#[trigger] t[i]) by {
        assert(front.contains(t[i]));
        let j = choose|j: int| 0 <= j < front.len() && front[j] == t[i];
        assert(s.contains(front[j]));
    }
}

proof fn lemma_trim_start(s: Seq<char>)
    ensures
        ({
            let t = trim_start(s);
            &&& forall|i: int| 0 <= i < t.len() ==> s.contains(#[trigger] t[i])
            &&& t.len() > 0 ==> !is_white_space(t[0])
            &&& s.len() > 0 && !is_white_space(s[0]) ==> t == s
        }),
    decreases s.len(),
{
    if s.len() > 0 && is_white_space(s[0]) {
        let rest = s.drop_first();
        lemma_trim_start(rest);
        let t = trim_start(s);
        assert forall|i: int| 0 <= i < t.len() implies s.contains(#[trigger] t[i]) by {
            assert(rest.contains(t[i]));
            let j = choose|j: int| 0 <= j < rest.len() && rest[j] == t[i];
            assert(s[j + 1] == t[i]);
        }
    }
}

proof fn lemma_trim_end(s: Seq<char>)
    ensures
        ({
            let t = trim_end(s);
            &&& forall|i: int| 0 <= i < t.len() ==> s.contains(#[trigger] t[i])
            &&& t.len() > 0 ==> t[0] == s[0] && !is_white_space(t.last())
            &&& s.len() > 0 && !is_white_space(s[0]) ==> t.len() > 0
        }),
    decreases s.len(),
{
    if s.len() > 0 && is_white_space(s.last()) {
        let rest = s.drop_last();
        lemma_trim_end(rest);
        let t = trim_end(s);
        assert forall|i: int| 0 <= i < t.len() implies s.contains(#[trigger] t[i]) by {
            assert(rest.contains(t[i]));
            let j = choose|j: int| 0 <= j < rest.len() && rest[j] == t[i];
            assert(s[j] == t[i]);
        }
    }
}

/// A text without line feeds is one line.
pub proof fn lemma_one_line(s: Seq<char>)
    requires
        !s.contains('\n'),
        s.len() == 0 || s.last() != '\r',
    ensures
        lines(s + seq!['\n']) == seq![s],
{
    lemma_lines_ended(s);
    lemma_find_char(s, '\n');
    assert(split_on(s, '\n') == seq![s]);
    assert(lines(s + seq!['\n']) =~= seq![s]);
}

/// The lines of a text that a line feed ends are its pieces between line feeds.
pub proof fn lemma_lines_ended(s: Seq<char>)
    ensures
        lines(s + seq!['\n']) == split_on(s, '\n').map_values(
            |l: Seq<char>| without_cr(l),
        ),
    decreases s.len(),
{
    let f = |l: Seq<char>| without_cr(l);
    let t = s + seq!['\n'];
    lemma_find_char(s, '\n');
    match find_char(s, '\n') {
        None => {
            assert forall|j: int| 0 <= j < s.len() implies t[j] != '\n' by {
                assert(s.contains(s[j]));
            }
            lemma_find_char_is(t, '\n', s.len() as int);
            assert(t.take(s.len() as int) =~= s);
            assert(t.skip(s.len() + 1int) =~= seq![]);
            assert(split_on(s, '\n') == seq![s]);
            assert(lines(t.skip(s.len() + 1int)) =~= seq![]);
            assert(lines(t) =~= split_on(s, '\n').map_values(f));
        },
        Some(i) => {
            assert forall|j: int| 0 <= j < i implies t[j] != '\n' by {
                assert(s.take(i)[j] == t[j]);
            }
            lemma_find_char_is(t, '\n', i);
            let rest = s.skip(i + 1);
            lemma_lines_ended(rest);
            assert(t.take(i) =~= s.take(i));
            assert(t.skip(i + 1) =~= rest + seq!['\n']);
            assert(lines(t) =~= split_on(s, '\n').map_values(f));
        },
    }
}

/// The lines of a text behind whole lines follow those.
pub proof fn lemma_lines_add(a: Seq<char>, b: Seq<char>)
    requires
        a.len() == 0 || a.last() == '\n',
    ensures
        lines(a + b) == lines(a) + lines(b),
    decreases a.len(),
{
    if a.len() == 0 {
        assert(a + b =~= b);
        assert(lines(a) + lines(b) =~= lines(b));
    } else {
        lemma_find_char(a, '\n');
        assert(a.contains(a.last()));
        let i = find_char(a, '\n')->0;
        let s = a + b;
        assert forall|j: int| 0 <= j < i implies s[j] != '\n' by {
            assert(a.take(i)[j] == s[j]);
        }
        lemma_find_char_is(s, '\n', i);
        lemma_lines_add(a.skip(i + 1), b);
        assert(s.take(i) =~= a.take(i));
        assert(s.skip(i + 1) =~= a.skip(i + 1) + b);
        assert(lines(s) =~= lines(a) + lines(b));
    }
}

pub proof fn lemma_occurs_shift(s: Seq<char>, p: Seq<char>, k: int, i: int)
    requires
        0 <= k <= s.len(),
        0 <= i,
    ensures
        occurs_at(s.skip(k), p, i) == occurs_at(s, p, k + i),
{
    if k + i + p.len() <= s.len() {
        assert(s.skip(k).subrange(i, i + p.len()) =~= s.subrange(k + i, k + i + p.len()));
    }
}

pub proof fn lemma_find(s: Seq<char>, p: Seq<char>)
    ensures
        match find(s, p) {
            Some(i) => first_at(s, p, i),
            None => !has_text(s, p),
        },
    decreases s.len(),
{
    if !has_prefix(s, p) && s.len() > 0 {
        let rest = s.drop_first();
        assert(rest =~= s.skip(1));
        lemma_find(rest, p);
        assert forall|j: int| 0 < j implies #[trigger] occurs_at(s, p, j) == occurs_at(
            rest,
            p,
            j - 1,
        ) by {
            lemma_occurs_shift(s, p, 1, j - 1);
        }
        match find(rest, p) {
            Some(i) => {
                assert(occurs_at(s, p, i + 1));
            },
            None => {
                assert forall|j: int| !occurs_at(s, p, j) by {
                    if j > 0 {
                        assert(!occurs_at(rest, p, j - 1));
                    }
                }
            },
        }
    }
}

/// The first position of a text is unique.
pub proof fn lemma_find_is(s: Seq<char>, p: Seq<char>, i: int)
    requires
        first_at(s, p, i),
    ensures
        find(s, p) == Some(i),
{
    lemma_find(s, p);
    match find(s, p) {
        Some(k) => {
            assert(!(k < i));
            assert(!(i < k));
        },
        None => {},
    }
}

pub proof fn lemma_find_none(s: Seq<char>, p: Seq<char>)
    requires
        forall|j: int| 0 <= j <= s.len() ==> !occurs_at(s, p, j),
    ensures
        find(s, p) is None,
        !has_text(s, p),
{
    lemma_find(s, p);
}

// ---------------------------------------------------------------------------
// Executable functions
// ---------------------------------------------------------------------------
/// The characters of a text.
pub fn chars_of(s: &str) -> (r: Vec<char>)
    ensures
        r@ == s@,
{
    let mut r: Vec<char> = Vec::new();
    for c in it: s.chars()
        invariant
            it.seq() == s@,
            r@ == s@.take(it.index()),
    {
        r.push(c);
        assert(s@.take(it.index() + 1) =~= s@.take(it.index()).push(c));
    }
    assert(s@.take(s@.len() as int) =~= s@);
    r
}

/// The text of a slice of characters.
pub fn text_of(s: &[char]) -> (r: String)
    ensures
        r@ == s@,
{
    let mut r = String::new();
    let mut i: usize = 0;
    while i < s.len()
        invariant
            i <= s@.len(),
            r@ == s@.take(i as int),
        decreases s@.len() - i,
    {
        r.push(s[i]);
        assert(s@.take(i + 1) =~= s@.take(i as int).push(s@[i as int]));
        i += 1;
    }
    assert(s@.take(s@.len() as int) =~= s@);
    r
}

/// Whether two texts are the same.
pub fn same_text(a: &str, b: &str) -> (r: bool)
    ensures
        r == (a@ == b@),
{
    let x = chars_of(a);
    let y = chars_of(b);
    same_chars(x.as_slice(), y.as_slice())
}

/// Whether two slices hold the same characters.
pub fn same_chars(a: &[char], b: &[char]) -> (r: bool)
    ensures
        r == (a@ == b@),
{
    if a.len() != b.len() {
        return false;
    }
    let mut i: usize = 0;
    while i < a.len()
        invariant
            i <= a@.len() == b@.len(),
            forall|j: int| 0 <= j < i ==> a@[j] == b@[j],
        decreases a@.len() - i,
    {
        if a[i] != b[i] {
            return false;
        }
        i += 1;
    }
    assert(a@ =~= b@);
    true
}

/// Whether a character is white space.
pub fn white_space(c: char) -> (r: bool)
    ensures
        r == is_white_space(c),
{
    ('\u{9}' <= c && c <= '\u{d}') || c == ' ' || c == '\u{85}' || c == '\u{a0}' || c == '\u{1680}'
        || ('\u{2000}' <= c && c <= '\u{200a}') || c == '\u{2028}' || c == '\u{2029}' || c
        == '\u{202f}' || c == '\u{205f}' || c == '\u{3000}'
}

/// The slice without the white space around it.
pub fn trim_chars(s: &[char]) -> (r: &[char])
    ensures
        r@ == trim(s@),
{
    let mut a: usize = 0;
    assert(s@.skip(0) =~= s@);
    while a < s.len() && white_space(s[a])
        invariant
            a <= s@.len(),
            trim_start(s@) == trim_start(s@.skip(a as int)),
        decreases s@.len() - a,
    {
        assert(s@.skip(a as int).drop_first() =~= s@.skip(a + 1));
        a += 1;
    }
    let ghost t = s@.skip(a as int);
    assert(trim_start(s@) == t);
    let mut b: usize = s.len();
    assert(s@.subrange(a as int, b as int) =~= t);
    while a < b && white_space(s[b - 1])
        invariant
            a <= b <= s@.len(),
            trim_end(t) == trim_end(s@.subrange(a as int, b as int)),
        decreases b,
    {
        assert(s@.subrange(a as int, b as int).drop_last() =~= s@.subrange(a as int, b - 1));
        b -= 1;
    }
    slice_subrange(s, a, b)
}

/// The text without the white space around it.
pub fn trim_text(s: &str) -> (r: String)
    ensures
        r@ == trim(s@),
{
    let chars = chars_of(s);
    text_of(trim_chars(chars.as_slice()))
}

/// The slice without the characters `c` in front.
pub fn trim_start_of(s: &[char], c: char) -> (r: &[char])
    ensures
        r@ == trim_start_char(s@, c),
{
    let mut a: usize = 0;
    assert(s@.skip(0) =~= s@);
    while a < s.len() && s[a] == c
        invariant
            a <= s@.len(),
            trim_start_char(s@, c) == trim_start_char(s@.skip(a as int), c),
        decreases s@.len() - a,
    {
        assert(s@.skip(a as int).drop_first() =~= s@.skip(a + 1));
        a += 1;
    }
    assert(s@.subrange(a as int, s@.len() as int) =~= s@.skip(a as int));
    slice_subrange(s, a, s.len())
}

/// The text without the characters `c` at its end.
pub fn trim_end_of(s: &str, c: char) -> (r: String)
    ensures
        r@ == trim_end_char(s@, c),
{
    let chars = chars_of(s);
    let mut b: usize = chars.len();
    assert(chars@.take(b as int) =~= s@);
    while 0 < b && chars[b - 1] == c
        invariant
            chars@ == s@,
            b <= chars@.len(),
            trim_end_char(s@, c) == trim_end_char(s@.take(b as int), c),
        decreases b,
    {
        assert(s@.take(b as int).drop_last() =~= s@.take(b - 1));
        b -= 1;
    }
    assert(chars@.subrange(0, b as int) =~= s@.take(b as int));
    text_of(slice_subrange(chars.as_slice(), 0, b))
}

/// Whether `p` stands at position `i` of `s`.
pub fn stands_at(s: &[char], p: &[char], i: usize) -> (r: bool)
    ensures
        r == occurs_at(s@, p@, i as int),
{
    if i > s.len() || p.len() > s.len() - i {
        return false;
    }
    same_chars(slice_subrange(s, i, i + p.len()), p)
}

/// Whether a text begins with `p`.
pub fn begins_with(s: &str, p: &str) -> (r: bool)
    ensures
        r == has_prefix(s@, p@),
{
    let x = chars_of(s);
    let y = chars_of(p);
    stands_at(x.as_slice(), y.as_slice(), 0)
}

/// Whether a text ends with `p`.
pub fn finishes_with(s: &str, p: &str) -> (r: bool)
    ensures
        r == has_suffix(s@, p@),
{
    let x = chars_of(s);
    let y = chars_of(p);
    y.len() <= x.len() && stands_at(x.as_slice(), y.as_slice(), x.len() - y.len())
}

/// The first position at which `p` stands in `s`.
pub fn find_chars(s: &[char], p: &[char]) -> (r: Option<usize>)
    ensures
        match r {
            Some(i) => find(s@, p@) == Some(i as int) && first_at(s@, p@, i as int),
            None => find(s@, p@) is None && !has_text(s@, p@),
        },
{
    let mut i: usize = 0;
    while i < s.len()
        invariant
            i <= s@.len(),
            forall|j: int| 0 <= j < i ==> !occurs_at(s@, p@, j),
        decreases s@.len() - i,
    {
        if stands_at(s, p, i) {
            proof {
                lemma_find_is(s@, p@, i as int);
            }
            return Some(i);
        }
        i += 1;
    }
    if stands_at(s, p, i) {
        proof {
            lemma_find_is(s@, p@, i as int);
        }
        return Some(i);
    }
    proof {
        lemma_find_none(s@, p@);
    }
    None
}

/// Whether `p` stands somewhere in a text.
pub fn contains_text(s: &str, p: &str) -> (r: bool)
    ensures
        r == has_text(s@, p@),
{
    let x = chars_of(s);
    let y = chars_of(p);
    match find_chars(x.as_slice(), y.as_slice()) {
        Some(_) => true,
        None => false,
    }
}

/// The first position of `c` in a slice, from position `from` on.
pub fn find_char_from(s: &[char], c: char, from: usize) -> (r: Option<usize>)
    requires
        from <= s@.len(),
    ensures
        match r {
            Some(i) => from <= i < s@.len() && find_char(s@.skip(from as int), c) == Some(i - from),
            None => find_char(s@.skip(from as int), c) is None,
        },
{
    let ghost t = s@.skip(from as int);
    let mut i: usize = from;
    while i < s.len()
        invariant
            from <= i <= s@.len(),
            t == s@.skip(from as int),
            forall|j: int| 0 <= j < i - from ==> t[j] != c,
        decreases s@.len() - i,
    {
        if s[i] == c {
            proof {
                lemma_find_char_is(t, c, i - from);
            }
            return Some(i);
        }
        i += 1;
    }
    proof {
        lemma_find_char_none(t, c);
    }
    None
}

/// What follows the prefix `p`.
pub fn strip_prefix_text(s: &str, p: &str) -> (r: Option<String>)
    ensures
        match r {
            Some(t) => after_prefix(s@, p@) == Some(t@),
            None => after_prefix(s@, p@) is None,
        },
{
    let x = chars_of(s);
    let y = chars_of(p);
    if stands_at(x.as_slice(), y.as_slice(), 0) {
        assert(x@.subrange(y@.len() as int, x@.len() as int) =~= s@.skip(p@.len() as int));
        Some(text_of(slice_subrange(x.as_slice(), y.len(), x.len())))
    } else {
        None
    }
}

/// The text without the copies of `p` in front.
pub fn trim_start_texts(s: &str, p: &str) -> (r: String)
    ensures
        r@ == trim_start_text(s@, p@),
{
    let x = chars_of(s);
    let y = chars_of(p);
    let n: usize = x.len();
    let mut a: usize = 0;
    assert(s@.skip(0) =~= s@);
    while y.len() > 0 && stands_at(x.as_slice(), y.as_slice(), a)
        invariant
            n == x@.len(),
            x@ == s@,
            y@ == p@,
            a <= s@.len(),
            trim_start_text(s@, p@) == trim_start_text(s@.skip(a as int), p@),
        decreases s@.len() - a,
    {
        proof {
            lemma_occurs_shift(s@, p@, a as int, 0);
            assert(s@.skip(a as int).skip(p@.len() as int) =~= s@.skip(a + p@.len()));
        }
        a += y.len();
    }
    proof {
        lemma_occurs_shift(s@, p@, a as int, 0);
        assert(x@.subrange(a as int, x@.len() as int) =~= s@.skip(a as int));
    }
    text_of(slice_subrange(x.as_slice(), a, x.len()))
}

/// The text without the copies of `p` at its end.
pub fn trim_end_texts(s: &str, p: &str) -> (r: String)
    ensures
        r@ == trim_end_text(s@, p@),
{
    let x = chars_of(s);
    let y = chars_of(p);
    let mut b: usize = x.len();
    assert(s@.take(b as int) =~= s@);
    while 0 < y.len() && y.len() <= b && stands_at(x.as_slice(), y.as_slice(), b - y.len())
        invariant
            x@ == s@,
            y@ == p@,
            b <= s@.len(),
            trim_end_text(s@, p@) == trim_end_text(s@.take(b as int), p@),
        decreases b,
    {
        proof {
            let t = s@.take(b as int);
            assert(t.subrange(b - p@.len(), b as int) =~= s@.subrange(b - p@.len(), b as int));
            assert(t.take(b - p@.len()) =~= s@.take(b - p@.len()));
        }
        b -= y.len();
    }
    proof {
        let t = s@.take(b as int);
        if p@.len() <= b {
            assert(t.subrange(b - p@.len(), b as int) =~= s@.subrange(b - p@.len(), b as int));
        }
        assert(x@.subrange(0, b as int) =~= t);
    }
    text_of(slice_subrange(x.as_slice(), 0, b))
}

/// The pieces of a slice between the characters `c`.
pub fn split_chars(s: &[char], c: char) -> (r: Vec<String>)
    ensures
        texts(r@) == split_on(s@, c),
{
    let n: usize = s.len();
    let mut r: Vec<String> = Vec::new();
    let mut from: usize = 0;
    assert(s@.skip(0) =~= s@);
    loop
        invariant
            n == s@.len(),
            from <= s@.len(),
            texts(r@) + split_on(s@.skip(from as int), c) == split_on(s@, c),
        decreases s@.len() - from,
    {
        let ghost rest = s@.skip(from as int);
        let ghost before = texts(r@);
        match find_char_from(s, c, from) {
            Some(i) => {
                let piece = text_of(slice_subrange(s, from, i));
                assert(piece@ =~= rest.take(i - from));
                r.push(piece);
                assert(texts(r@) =~= before.push(piece@));
                assert(rest.skip(i - from + 1) =~= s@.skip(i + 1));
                assert(before + (seq![piece@] + split_on(s@.skip(i + 1), c)) =~= texts(r@)
                    + split_on(s@.skip(i + 1), c));
                from = i + 1;
            },
            None => {
                let piece = text_of(slice_subrange(s, from, s.len()));
                assert(piece@ =~= rest);
                r.push(piece);
                assert(texts(r@) =~= before + seq![piece@]);
                return r;
            },
        }
    }
}

/// The lines of a text.
pub fn lines_of(s: &str) -> (r: Vec<String>)
    ensures
        texts(r@) == lines(s@),
{
    let x = chars_of(s);
    let chars = x.as_slice();
    let mut r: Vec<String> = Vec::new();
    let mut from: usize = 0;
    assert(s@.skip(0) =~= s@);
    while from < chars.len()
        invariant
            chars@ == s@,
            from <= s@.len(),
            texts(r@) + lines(s@.skip(from as int)) == lines(s@),
        decreases s@.len() - from,
    {
        let ghost rest = s@.skip(from as int);
        let ghost before = texts(r@);
        match find_char_from(chars, '\n', from) {
            Some(i) => {
                let end: usize = if from < i && chars[i - 1] == '\r' {
                    i - 1
                } else {
                    i
                };
                let line = text_of(slice_subrange(chars, from, end));
                assert(line@ =~= without_cr(rest.take(i - from)));
                r.push(line);
                assert(texts(r@) =~= before.push(line@));
                assert(rest.skip(i - from + 1) =~= s@.skip(i + 1));
                assert(before + (seq![line@] + lines(s@.skip(i + 1))) =~= texts(r@) + lines(
                    s@.skip(i + 1),
                ));
                from = i + 1;
            },
            None => {
                let line = text_of(slice_subrange(chars, from, chars.len()));
                assert(line@ =~= rest);
                r.push(line);
                assert(texts(r@) =~= before + seq![line@]);
                return r;
            },
        }
    }
    assert(s@.skip(from as int).len() == 0);
    assert(texts(r@) =~= lines(s@));
    r
}

/// The texts, with `sep` between them.
pub fn join_texts(parts: &Vec<String>, sep: &str) -> (r: String)
    ensures
        r@ == join(texts(parts@), sep@),
{
    let mut r = String::new();
    let ghost all = texts(parts@);
    let mut i: usize = 0;
    while i < parts.len()
        invariant
            i <= parts@.len(),
            all == texts(parts@),
            r@ == join(all.take(i as int), sep@),
        decreases parts@.len() - i,
    {
        if i > 0 {
            r.append(sep);
        }
        r.append(parts[i].as_str());
        assert(all.take(i + 1).drop_last() =~= all.take(i as int));
        assert(all.take(i + 1).last() == parts@[i as int]@);
        i += 1;
        assert(r@ =~= join(all.take(i as int), sep@));
    }
    assert(all.take(i as int) =~= all);
    r
}

/// The texts, trimmed, without those that are then empty.
pub fn trim_parts(parts: &Vec<String>) -> (r: Vec<String>)
    ensures
        texts(r@) == trimmed_parts(texts(parts@)),
{
    let mut r: Vec<String> = Vec::new();
    let ghost all = texts(parts@).map_values(|p: Seq<char>| trim(p));
    let ghost keep = |p: Seq<char>| p.len() > 0;
    let mut i: usize = 0;
    assert(all.take(0).filter(keep) =~= seq![]) by {
        reveal(Seq::filter);
    }
    while i < parts.len()
        invariant
            i <= parts@.len(),
            all == texts(parts@).map_values(|p: Seq<char>| trim(p)),
            keep == (|p: Seq<char>| p.len() > 0),
            texts(r@) == all.take(i as int).filter(keep),
        decreases parts@.len() - i,
    {
        let part = trim_text(parts[i].as_str());
        proof {
            reveal(Seq::filter);
            assert(all.take(i + 1).drop_last() =~= all.take(i as int));
            assert(all.take(i + 1).last() == part@);
        }
        let ghost before = texts(r@);
        if !part.as_str().is_empty() {
            r.push(part);
            assert(texts(r@) =~= before.push(part@));
        }
        i += 1;
    }
    assert(all.take(i as int) =~= all);
    r
}

/// A text, or another where there is none.
pub fn text_or(o: Option<String>, default: &str) -> (r: String)
    ensures
        r@ == or_else(o, default@),
{
    match o {
        Some(s) => s,
        None => String::from_str(default),
    }
}

// ---------------------------------------------------------------------------
// What the models mean
// ---------------------------------------------------------------------------
/// A trimmed text is the text without the white space at both ends, and all else of it.
pub proof fn law_trim(s: Seq<char>)
    ensures
        exists|i: int, j: int|
            0 <= i <= j <= s.len() && trim(s) == #[trigger] s.subrange(i, j) && (forall|k: int|
                0 <= k < i || j <= k < s.len() ==> is_white_space(#[trigger] s[k])) && (i < j
                ==> !is_white_space(s[i]) && !is_white_space(s[j - 1])),
{
    let t = trim_start(s);
    lemma_trim_start_parts(s);
    lemma_trim_end_parts(t);
    let i = s.len() - t.len();
    let j = i + trim(s).len();
    assert(trim(s) =~= s.subrange(i, j)) by {
        assert(t == s.skip(i));
    }
    assert forall|k: int| 0 <= k < i || j <= k < s.len() implies is_white_space(
        #[trigger] s[k],
    ) by {
        if k >= j {
            assert(s[k] == t[k - i]);
        }
    }
    if i < j {
        lemma_trim(s);
        assert(s[i] == trim(s)[0]);
        assert(s[j - 1] == trim(s).last());
    }
}

proof fn lemma_trim_start_parts(s: Seq<char>)
    ensures
        trim_start(s).len() <= s.len(),
        trim_start(s) == s.skip(s.len() - trim_start(s).len()),
        forall|k: int|
            0 <= k < s.len() - trim_start(s).len() ==> is_white_space(#[trigger] s[k]),
    decreases s.len(),
{
    if s.len() > 0 && is_white_space(s[0]) {
        let rest = s.drop_first();
        lemma_trim_start_parts(rest);
        let n = s.len() - trim_start(s).len();
        assert(s.skip(n) =~= rest.skip(n - 1));
        assert forall|k: int| 0 <= k < n implies is_white_space(#[trigger] s[k]) by {
            if k > 0 {
                assert(s[k] == rest[k - 1]);
            }
        }
    } else {
        assert(s.skip(0) =~= s);
    }
}

proof fn lemma_trim_end_parts(s: Seq<char>)
    ensures
        trim_end(s).len() <= s.len(),
        trim_end(s) == s.take(trim_end(s).len() as int),
        forall|k: int| trim_end(s).len() <= k < s.len() ==> is_white_space(#[trigger] s[k]),
    decreases s.len(),
{
    if s.len() > 0 && is_white_space(s.last()) {
        let rest = s.drop_last();
        lemma_trim_end_parts(rest);
        let n = trim_end(s).len() as int;
        assert(s.take(n) =~= rest.take(n));
        assert forall|k: int| n <= k < s.len() implies is_white_space(#[trigger] s[k]) by {
            if k < rest.len() {
                assert(s[k] == rest[k]);
            }
        }
    } else {
        assert(s.take(s.len() as int) =~= s);
    }
}

/// A text holds another just where it is something, the other, and something; it begins with
/// it where nothing stands in front, and ends with it where nothing stands behind.
pub proof fn law_text_in_text(a: Seq<char>, p: Seq<char>, b: Seq<char>, s: Seq<char>)
    ensures
        has_text(a + p + b, p),
        has_prefix(p + b, p),
        has_suffix(a + p, p),
        after_prefix(p + b, p) == Some(b),
        has_text(s, p) ==> exists|x: Seq<char>, y: Seq<char>| s == #[trigger] (x + p + y),
        has_prefix(s, p) ==> exists|y: Seq<char>| s == #[trigger] (p + y),
        has_suffix(s, p) ==> exists|x: Seq<char>| s == #[trigger] (x + p),
        !has_prefix(s, p) ==> after_prefix(s, p) is None,
{
    assert((a + p + b).subrange(a.len() as int, a.len() + p.len() as int) =~= p);
    assert(occurs_at(a + p + b, p, a.len() as int));
    assert((p + b).subrange(0, p.len() as int) =~= p);
    assert((p + b).skip(p.len() as int) =~= b);
    assert((a + p).subrange(a.len() as int, (a + p).len() as int) =~= p);
    if has_text(s, p) {
        let i = choose|i: int| occurs_at(s, p, i);
        assert(s =~= s.take(i) + p + s.skip(i + p.len())) by {
            assert(s.subrange(i, i + p.len()) == p);
            assert forall|k: int| 0 <= k < s.len() implies s[k] == (s.take(i) + p + s.skip(
                i + p.len(),
            ))[k] by {
                if i <= k < i + p.len() {
                    assert(s.subrange(i, i + p.len())[k - i] == s[k]);
                }
            }
        }
    }
    if has_prefix(s, p) {
        assert(s =~= p + s.skip(p.len() as int)) by {
            assert forall|k: int| 0 <= k < p.len() implies s[k] == p[k] by {
                assert(s.subrange(0, p.len() as int)[k] == s[k]);
            }
        }
    }
    if has_suffix(s, p) {
        let i = s.len() - p.len();
        assert(s =~= s.take(i) + p) by {
            assert forall|k: int| i <= k < s.len() implies s[k] == p[k - i] by {
                assert(s.subrange(i, i + p.len())[k - i] == s[k]);
            }
        }
    }
}

/// Pieces are joined one behind the other, with the separator between each two.
pub proof fn law_join(parts: Seq<Seq<char>>, part: Seq<char>, sep: Seq<char>)
    ensures
        join(Seq::<Seq<char>>::empty(), sep) == Seq::<char>::empty(),
        join(seq![part], sep) == part,
        parts.len() > 0 ==> join(parts.push(part), sep) == join(parts, sep) + sep + part,
{
    assert(parts.push(part).drop_last() =~= parts);
}

/// A text without the separator is one piece; behind a separator another piece begins.
pub proof fn law_split(a: Seq<char>, c: char, b: Seq<char>)
    requires
        !a.contains(c),
    ensures
        split_on(a, c) == seq![a],
        split_on(a + seq![c] + b, c) == seq![a] + split_on(b, c),
{
    lemma_find_char(a, c);
    let s = a + seq![c] + b;
    let n = a.len() as int;
    assert forall|j: int| 0 <= j < n implies s[j] != c by {
        assert(a.contains(a[j]));
    }
    lemma_find_char_is(s, c, n);
    assert(s.take(n) =~= a);
    assert(s.skip(n + 1) =~= b);
}

/// A line ends with a line feed, with or without a carriage return in front of it; what is
/// behind the last line feed is a line where it is not empty.
pub proof fn law_lines(a: Seq<char>, b: Seq<char>)
    requires
        !a.contains('\n'),
    ensures
        lines(Seq::<char>::empty()) == Seq::<Seq<char>>::empty(),
        a.len() > 0 ==> lines(a) == seq![a],
        lines(a + seq!['\r', '\n'] + b) == seq![a] + lines(b),
        a.len() == 0 || a.last() != '\r' ==> lines(a + seq!['\n'] + b) == seq![a] + lines(b),
{
    lemma_find_char(a, '\n');
    let n = a.len() as int;
    let s = a + seq!['\n'] + b;
    let t = a + seq!['\r', '\n'] + b;
    assert forall|j: int| 0 <= j < n implies a[j] != '\n' by {
        assert(a.contains(a[j]));
    }
    lemma_find_char_is(s, '\n', n);
    assert(s.take(n) =~= a);
    assert(s.skip(n + 1) =~= b);
    lemma_find_char_is(t, '\n', n + 1);
    assert(t.take(n + 1) =~= a.push('\r'));
    assert(without_cr(a.push('\r')) =~= a);
    assert(t.skip(n + 2) =~= b);
}

/// Of some parts, trimmed, those are kept that are then not empty, in their order.
pub proof fn law_trimmed_parts(parts: Seq<Seq<char>>, part: Seq<char>)
    ensures
        trimmed_parts(Seq::<Seq<char>>::empty()) == Seq::<Seq<char>>::empty(),
        trimmed_parts(parts.push(part)) == if trim(part).len() > 0 {
            trimmed_parts(parts).push(trim(part))
        } else {
            trimmed_parts(parts)
        },
{
    reveal(Seq::filter);
    let f = |p: Seq<char>| trim(p);
    let none: Seq<Seq<char>> = seq![];
    assert(none.map_values(f) =~= seq![]);
    assert(parts.push(part).map_values(f) =~= parts.map_values(f).push(trim(part)));
    assert(parts.map_values(f).push(trim(part)).drop_last() =~= parts.map_values(f));
}

/// A character at an end of a text is taken off there as often as it stands there.
pub proof fn law_trim_char(s: Seq<char>, c: char)
    ensures
        trim_end_char(s.push(c), c) == trim_end_char(s, c),
        s.len() == 0 || s.last() != c ==> trim_end_char(s, c) == s,
        trim_start_char(seq![c] + s, c) == trim_start_char(s, c),
        s.len() == 0 || s[0] != c ==> trim_start_char(s, c) == s,
{
    assert(s.push(c).drop_last() =~= s);
    assert((seq![c] + s).drop_first() =~= s);
}

/// A text that stands at an end of another is taken off there as often as it stands there.
pub proof fn law_trim_text(s: Seq<char>, p: Seq<char>)
    requires
        p.len() > 0,
    ensures
        trim_start_text(p + s, p) == trim_start_text(s, p),
        !has_prefix(s, p) ==> trim_start_text(s, p) == s,
        trim_end_text(s + p, p) == trim_end_text(s, p),
        !has_suffix(s, p) ==> trim_end_text(s, p) == s,
{
    law_text_in_text(s, p, s, s);
    assert((p + s).skip(p.len() as int) =~= s);
    assert((s + p).take(s.len() as int) =~= s);
}

/// A text that is there is taken as it is, empty or not, and only one that is missing is
/// replaced; and of several texts each is taken as it is.
pub proof fn law_texts_as_they_are(s: String, default: Seq<char>, v: Seq<String>)
    ensures
        or_else(Some(s), default) == s@,
        or_else(None, default) == default,
        opt_text(Some(s)) == Some(s@),
        opt_text(None) is None,
        texts(v).len() == v.len(),
        forall|i: int| 0 <= i < v.len() ==> #[trigger] texts(v)[i] == v[i]@,
{
}

}
