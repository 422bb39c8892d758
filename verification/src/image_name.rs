//! Images by their names: their types, and where they are kept.

use vstd::prelude::*;
use vstd::slice::slice_subrange;
use vstd::string::StringExecFns;

use crate::clock;
use crate::clock::file_time;
use crate::clock::web_file_time;
use crate::clock::LocalTime;
use crate::memory_log;
use crate::number;
use crate::number::decimal_text;
use crate::text;
use crate::text::chars_of;
use crate::text::contains_text;
use crate::text::finishes_with;
use crate::text::same_text;
use crate::text::split_chars;
use crate::text::text_of;
use crate::text::trim_end_of;

verus! {

/// A text that `str::to_lowercase` turned into lower case.
pub uninterp spec fn lowercased(s: Seq<char>) -> Seq<char>;

/// An ASCII letter in lower case; any other character as it is.
pub open spec fn ascii_lower(c: char) -> char {
    if 'A' <= c <= 'Z' {
        (c as u32 + 32) as char
    } else {
        c
    }
}

/// Calls `str::to_lowercase`. A text in ASCII has its letters turned into lower case and
/// nothing else; what becomes of other letters is left to Unicode.
#[verifier::external_body]
pub(crate) fn lowercase(s: &str) -> (r: String)
    ensures
        r@ == lowercased(s@),
        vstd::utf8::is_ascii_chars(s@) ==> r@ == s@.map_values(|c: char| ascii_lower(c)),
{
    s.to_lowercase()
}

/// The type of an image by its content type and file name, both in lower case: the
/// extension that it is kept under. JPEG goes before PNG, and PNG before WebP.
pub open spec fn image_type(content_type: Seq<char>, filename: Seq<char>) -> Option<Seq<char>> {
    if text::has_text(content_type, "jpeg"@) || text::has_text(content_type, "jpg"@)
        || text::has_suffix(filename, ".jpg"@) || text::has_suffix(filename, ".jpeg"@) {
        Some("jpg"@)
    } else if text::has_text(content_type, "png"@) || text::has_suffix(filename, ".png"@) {
        Some("png"@)
    } else if text::has_text(content_type, "webp"@) || text::has_suffix(filename, ".webp"@) {
        Some("webp"@)
    } else {
        None
    }
}

pub open spec fn opt_str(o: Option<&'static str>) -> Option<Seq<char>> {
    match o {
        Some(s) => Some(s@),
        None => None,
    }
}

/// The type of an image by its content type and file name, both in lower case.
pub fn lower_image_type(content_type: &str, filename: &str) -> (r: Option<&'static str>)
    ensures
        opt_str(r) == image_type(content_type@, filename@),
{
    if contains_text(content_type, "jpeg") || contains_text(content_type, "jpg") || finishes_with(
        filename,
        ".jpg",
    ) || finishes_with(filename, ".jpeg") {
        Some("jpg")
    } else if contains_text(content_type, "png") || finishes_with(filename, ".png") {
        Some("png")
    } else if contains_text(content_type, "webp") || finishes_with(filename, ".webp") {
        Some("webp")
    } else {
        None
    }
}

/// The type of an image by its content type and file name, in whatever case.
pub fn resolve_image_type(content_type: &str, filename: &str) -> (r: Option<&'static str>)
    ensures
        opt_str(r) == image_type(lowercased(content_type@), lowercased(filename@)),
        vstd::utf8::is_ascii_chars(content_type@) ==> lowercased(content_type@)
            == content_type@.map_values(|c: char| ascii_lower(c)),
        vstd::utf8::is_ascii_chars(filename@) ==> lowercased(filename@) == filename@.map_values(
            |c: char| ascii_lower(c),
        ),
{
    let lower_ct = lowercase(content_type);
    let lower_fn = lowercase(filename);
    lower_image_type(lower_ct.as_str(), lower_fn.as_str())
}

/// Whether a part of a path is a step to somewhere else.
pub open spec fn is_step(part: Seq<char>) -> bool {
    part.len() > 0 && part != "."@
}

/// The last of the parts that are steps.
pub open spec fn last_step(parts: Seq<Seq<char>>) -> Option<Seq<char>>
    decreases parts.len(),
{
    if parts.len() == 0 {
        None
    } else if is_step(parts.last()) {
        Some(parts.last())
    } else {
        last_step(parts.drop_last())
    }
}

/// The file that a path ends in; nothing where it ends in the directory above.
pub open spec fn file_name(path: Seq<char>) -> Option<Seq<char>> {
    match last_step(text::split_on(path, '/')) {
        Some(part) => if part == ".."@ {
            None
        } else {
            Some(part)
        },
        None => None,
    }
}

/// The last place of a character.
pub open spec fn rfind_char(s: Seq<char>, c: char) -> Option<int>
    decreases s.len(),
{
    if s.len() == 0 {
        None
    } else if s.last() == c {
        Some(s.len() - 1)
    } else {
        rfind_char(s.drop_last(), c)
    }
}

/// A file name without its extension: what stands in front of the last full stop, unless
/// nothing does.
pub open spec fn stem(name: Seq<char>) -> Seq<char> {
    match rfind_char(name, '.') {
        Some(i) => if i == 0 {
            name
        } else {
            name.take(i)
        },
        None => name,
    }
}

/// What an image is called: the stem of its file name, or `image`.
pub open spec fn image_stem(path: Seq<char>) -> Seq<char> {
    match file_name(path) {
        Some(name) => stem(name),
        None => "image"@,
    }
}

fn last_step_of(parts: &Vec<String>) -> (r: Option<String>)
    ensures
        text::opt_text(r) == last_step(text::texts(parts@)),
{
    let mut i: usize = parts.len();
    assert(text::texts(parts@).take(i as int) =~= text::texts(parts@));
    while i > 0
        invariant
            i <= parts@.len(),
            last_step(text::texts(parts@)) == last_step(text::texts(parts@).take(i as int)),
        decreases i,
    {
        let ghost here = text::texts(parts@).take(i as int);
        assert(here.drop_last() =~= text::texts(parts@).take(i - 1));
        i -= 1;
        let part = &parts[i];
        if !part.as_str().is_empty() && !same_text(part.as_str(), ".") {
            return Some(String::from_str(part.as_str()));
        }
    }
    None
}

fn stem_of(name: &str) -> (r: String)
    ensures
        r@ == stem(name@),
{
    let x = chars_of(name);
    let n: usize = x.len();
    let mut i: usize = n;
    assert(name@.take(n as int) =~= name@);
    while i > 0
        invariant
            x@ == name@,
            n == x@.len(),
            i <= n,
            rfind_char(name@, '.') == rfind_char(name@.take(i as int), '.'),
        decreases i,
    {
        let ghost here = name@.take(i as int);
        assert(here.drop_last() =~= name@.take(i - 1));
        i -= 1;
        if x[i] == '.' {
            if i == 0 {
                return String::from_str(name);
            }
            return text_of(slice_subrange(x.as_slice(), 0, i));
        }
    }
    String::from_str(name)
}

/// What an image is called.
pub fn image_stem_of(path: &str) -> (r: String)
    ensures
        r@ == image_stem(path@),
{
    match last_step_of(&split_chars(chars_of(path).as_slice(), '/')) {
        Some(name) => if same_text(name.as_str(), "..") {
            String::from_str("image")
        } else {
            stem_of(name.as_str())
        },
        None => String::from_str("image"),
    }
}

/// Where an attachment is kept, and what it is called when it is handed on.
pub struct AttachmentPaths {
    pub save_path: String,
    pub upload_filename: String,
}

/// A path in a directory, which may end in slashes.
pub open spec fn in_directory(dir: Seq<char>, name: Seq<char>) -> Seq<char> {
    text::trim_end_char(dir, '/') + "/"@ + name
}

/// The name of an attachment: when it came, what it is called, and its type.
pub open spec fn attachment_name(time: Seq<char>, path: Seq<char>, ext: Seq<char>) -> Seq<char> {
    time + "_"@ + image_stem(path) + "."@ + ext
}

/// Where an attachment of a given type is kept.
pub fn attachment_paths(now: &LocalTime, filename: &str, ext: &str, image_save_dir: &str) -> (r:
    AttachmentPaths)
    requires
        now.valid(),
    ensures
        ({
            let time = clock::formatted(*now, "%Y%m%d_%H%M%S"@);
            &&& r.save_path@ == in_directory(
                image_save_dir@,
                attachment_name(time, filename@, ext@),
            )
            &&& r.upload_filename@ == attachment_name(time, filename@, "jpg"@)
        }),
{
    let time = file_time(now);
    let name = image_stem_of(filename);
    let mut upload_filename = time;
    upload_filename.append("_");
    upload_filename.append(name.as_str());
    upload_filename.append(".");
    let ghost front = upload_filename@;
    let mut save_path = trim_end_of(image_save_dir, '/');
    save_path.append("/");
    save_path.append(upload_filename.as_str());
    save_path.append(ext);
    upload_filename.append("jpg");
    assert(text::trim_end_char(image_save_dir@, '/') + "/"@ + front + ext@
        =~= text::trim_end_char(image_save_dir@, '/') + "/"@ + (front + ext@));
    AttachmentPaths { save_path, upload_filename }
}

/// Where an attachment is kept; its type decides whether it is.
pub fn place_attachment(
    now: &LocalTime,
    filename: &str,
    content_type: &str,
    image_save_dir: &str,
) -> (r: Result<AttachmentPaths, String>)
    requires
        now.valid(),
    ensures
        match (r, image_type(lowercased(content_type@), lowercased(filename@))) {
            (Ok(paths), Some(ext)) => {
                let time = clock::formatted(*now, "%Y%m%d_%H%M%S"@);
                &&& paths.save_path@ == in_directory(
                    image_save_dir@,
                    attachment_name(time, filename@, ext),
                )
                &&& paths.upload_filename@ == attachment_name(time, filename@, "jpg"@)
            },
            (Err(e), None) => e@ == "非対応の画像フォーマット: "@ + content_type@ + " / "@
                + filename@,
            _ => false,
        },
{
    match resolve_image_type(content_type, filename) {
        Some(ext) => Ok(attachment_paths(now, filename, ext, image_save_dir)),
        None => {
            let mut e = String::from_str("非対応の画像フォーマット: ");
            e.append(content_type);
            e.append(" / ");
            e.append(filename);
            Err(e)
        },
    }
}

/// The directory of the images that came over the web.
pub open spec fn web_directory(dir: Seq<char>) -> Seq<char> {
    text::trim_end_char(dir, '/') + "/web"@
}

pub fn web_image_dir(image_save_dir: &str) -> (r: String)
    ensures
        r@ == web_directory(image_save_dir@),
{
    let mut s = trim_end_of(image_save_dir, '/');
    s.append("/web");
    s
}

/// What tells apart images that came at the same time: nothing for the first, and then a
/// number.
pub open spec fn number_part(n: nat) -> Seq<char> {
    if n == 0 {
        seq![]
    } else {
        "_"@ + number::decimal(n)
    }
}

/// The name of an image that came over the web at some time, where `n` came before it at the
/// same time.
pub open spec fn web_name(now: LocalTime, n: nat) -> Seq<char> {
    "web_"@ + clock::formatted(now, "%Y%m%d_%H%M%S_%3f"@) + number_part(n) + ".webp"@
}

pub fn web_image_name(now: &LocalTime, n: usize) -> (r: String)
    requires
        now.valid(),
    ensures
        r@ == web_name(*now, n as nat),
{
    let mut s = String::from_str("web_");
    s.append(web_file_time(now).as_str());
    let ghost front = s@;
    if n > 0 {
        s.append("_");
        s.append(decimal_text(n as u64).as_str());
    }
    assert(s@ =~= front + number_part(n as nat));
    s.append(".webp");
    s
}

/// Images that came over the web at different times, to the millisecond, or with different
/// numbers, have different names.
pub proof fn law_web_names_differ(a: LocalTime, n: nat, b: LocalTime, m: nat)
    requires
        a.valid(),
        b.valid(),
        a != b || n != m,
    ensures
        web_name(a, n) != web_name(b, m),
{
    if web_name(a, n) == web_name(b, m) {
        let p = "%Y%m%d_%H%M%S_%3f"@;
        let fa = clock::formatted(a, p) + number_part(n);
        let fb = clock::formatted(b, p) + number_part(m);
        let k = "web_"@.len() as int;
        assert(web_name(a, n).len() == k + fa.len() + ".webp"@.len());
        assert(web_name(a, n).subrange(k, k + fa.len()) =~= fa);
        assert(web_name(b, m).subrange(k, k + fb.len()) =~= fb);
        lemma_numbered_times(a, n, b, m);
        lemma_numbered_times(b, m, a, n);
    }
}

/// Two numbered times that are written in the same way are the same, if the first is not
/// the longer one.
proof fn lemma_numbered_times(a: LocalTime, n: nat, b: LocalTime, m: nat)
    requires
        a.valid(),
        b.valid(),
        clock::formatted(a, "%Y%m%d_%H%M%S_%3f"@) + number_part(n) == clock::formatted(
            b,
            "%Y%m%d_%H%M%S_%3f"@,
        ) + number_part(m),
    ensures
        clock::formatted(a, "%Y%m%d_%H%M%S_%3f"@).len() <= clock::formatted(
            b,
            "%Y%m%d_%H%M%S_%3f"@,
        ).len() ==> a == b && n == m,
{
    reveal_strlit("_");
    let fa = clock::formatted(a, "%Y%m%d_%H%M%S_%3f"@);
    let fb = clock::formatted(b, "%Y%m%d_%H%M%S_%3f"@);
    let na = number_part(n);
    let nb = number_part(m);
    let all = fa + na;
    assert(all == fb + nb);
    let x = fa.len() as int;
    let y = fb.len() as int;
    clock::lemma_web_file_time_end(a);
    clock::lemma_web_file_time_end(b);
    number::lemma_decimal_digits(n);
    number::lemma_decimal_digits(m);
    number::lemma_decimal_value(n);
    number::lemma_decimal_value(m);
    if x == y {
        assert(all.take(x) =~= fa);
        assert(all.take(x) =~= fb);
        clock::law_web_file_times_differ(a, b);
        assert(all.skip(x) =~= na);
        assert(all.skip(x) =~= nb);
        if n > 0 {
            assert(na.skip(1) =~= number::decimal(n));
        }
        if m > 0 {
            assert(nb.skip(1) =~= number::decimal(m));
        }
    } else if x < y {
        // The first time is followed by an underscore and digits alone.
        assert(n > 0);
        let d = number::decimal(n);
        assert forall|i: int| x < i < all.len() implies number::is_digit(#[trigger] all[i]) by {
            assert(all[i] == na[i - x]);
            assert(na[i - x] == d[i - x - 1]);
            assert(number::is_digit(d[i - x - 1]));
        }
        assert(all[x] == na[0]);
        if m > 0 {
            assert(all[y] == nb[0]);
            assert(!number::is_digit(all[y]));
        } else {
            assert(all[y - 4] == fb[y - 4]);
            assert(all[y - 3] == fb[y - 3]);
            assert(all[y - 2] == fb[y - 2]);
            assert(all[y - 1] == fb[y - 1]);
            assert(x == y - 4);
            assert(all[x - 4] == fa[x - 4]);
            assert(all[y - 8] == fb[y - 8]);
        }
    }
}

/// The characters of the name of an image that came over the web: those of a time, and those
/// of its number.
pub proof fn lemma_web_name_chars(now: LocalTime, n: nat)
    ensures
        ({
            let name = web_name(now, n);
            let p = "%Y%m%d_%H%M%S_%3f"@;
            &&& name.len() > 9
            &&& name.take(4) == "web_"@
            &&& name.skip(name.len() - 5) == ".webp"@
            &&& forall|i: int|
                4 <= i < name.len() - 5 ==> clock::is_time_char(#[trigger] name[i], p)
        }),
{
    let p = "%Y%m%d_%H%M%S_%3f"@;
    reveal_strlit("%Y%m%d_%H%M%S_%3f");
    reveal_strlit("web_");
    reveal_strlit(".webp");
    reveal_strlit("_");
    assert(clock::is_pattern(p)) by {
        reveal_with_fuel(clock::is_pattern, 12);
    }
    clock::law_formatted_chars(now, p);
    number::lemma_decimal_digits(n);
    let time = clock::formatted(now, p);
    let part = number_part(n);
    let name = web_name(now, n);
    assert(time.len() > 0);
    assert(name.take(4) =~= "web_"@);
    assert(name.skip(name.len() - 5) =~= ".webp"@);
    assert(p[6] == '_');
    assert forall|i: int| 4 <= i < name.len() - 5 implies clock::is_time_char(
        #[trigger] name[i],
        p,
    ) by {
        if i < 4 + time.len() {
            assert(name[i] == time[i - 4]);
        } else {
            let j = i - 4 - time.len();
            assert(name[i] == part[j]);
            if j > 0 {
                assert(part[j] == number::decimal(n)[j - 1]);
            }
        }
    }
}

/// The name of an image that came over the web can stand in the tag of a logged message.
pub proof fn law_web_name_can_be_tagged(now: LocalTime, n: nat)
    ensures
        memory_log::is_image_name(web_name(now, n)),
{
    let p = "%Y%m%d_%H%M%S_%3f"@;
    reveal_strlit("%Y%m%d_%H%M%S_%3f");
    reveal_strlit("web_");
    reveal_strlit(".webp");
    lemma_web_name_chars(now, n);
    let name = web_name(now, n);
    let last = name.len() - 5;
    assert forall|i: int| 0 <= i < name.len() implies name[i] != '|' && name[i] != ']' by {
        if i < 4 {
            assert(name[i] == name.take(4)[i]);
        } else if i < last {
            assert(clock::is_time_char(name[i], p));
        } else {
            assert(name[i] == name.skip(last)[i - last]);
        }
    }
    assert(name[0] == name.take(4)[0]);
    assert(name.last() == name.skip(last)[4]);
    assert(text::trim_start(name) == name);
    assert(text::trim_end(name) == name);
}

/// The type of an image, by its content type and its name in lower case.
pub proof fn law_image_type(ct: Seq<char>, name: Seq<char>)
    ensures
        ({
            let jpg = text::has_text(ct, "jpeg"@) || text::has_text(ct, "jpg"@) || text::has_suffix(
                name,
                ".jpg"@,
            ) || text::has_suffix(name, ".jpeg"@);
            let png = text::has_text(ct, "png"@) || text::has_suffix(name, ".png"@);
            let webp = text::has_text(ct, "webp"@) || text::has_suffix(name, ".webp"@);
            &&& jpg ==> image_type(ct, name) == Some("jpg"@)
            &&& !jpg && png ==> image_type(ct, name) == Some("png"@)
            &&& !jpg && !png && webp ==> image_type(ct, name) == Some("webp"@)
            &&& !jpg && !png && !webp ==> image_type(ct, name) is None
        }),
{
}

/// What an image is called: what stands behind the last slash and in front of the last full
/// stop; all of it where there is no full stop, or only one in front; and `image` where the
/// path ends in the directory above, or is empty.
pub proof fn law_image_stem(dir: Seq<char>, base: Seq<char>, ext: Seq<char>)
    requires
        base.len() > 0,
        !base.contains('/'),
        !ext.contains('/'),
        !ext.contains('.'),
        base != "."@,
        base != ".."@,
    ensures
        image_stem(base + seq!['.'] + ext) == base,
        image_stem(dir + seq!['/'] + (base + seq!['.'] + ext)) == base,
        !base.contains('.') ==> image_stem(base) == base,
        ext.len() > 0 ==> image_stem(seq!['.'] + ext) == seq!['.'] + ext,
        image_stem(Seq::<char>::empty()) == "image"@,
        image_stem(".."@) == "image"@,
        image_stem(dir + seq!['/'] + ".."@) == "image"@,
{
    reveal_strlit(".");
    reveal_strlit("..");
    let none: Seq<char> = seq![];
    let name = base + seq!['.'] + ext;
    assert(!name.contains('/')) by {
        if name.contains('/') {
            let i = choose|i: int| 0 <= i < name.len() && name[i] == '/';
            if i < base.len() {
                assert(base[i] == '/');
            } else if i > base.len() {
                assert(ext[i - base.len() - 1] == '/');
            }
        }
    }
    assert(name[base.len() as int] == '.');
    assert(name != "."@) by {
        assert(name.len() >= 2);
    }
    assert(name != ".."@) by {
        if name == ".."@ {
            assert(base.len() == 1);
            assert(base[0] == name[0]);
            assert(base =~= "."@);
        }
    }
    lemma_rfind_char(base, ext);
    assert(name.take(base.len() as int) =~= base);
    lemma_file_in(dir, name);
    if !base.contains('.') {
        lemma_rfind_none(base);
    }
    lemma_file_in(dir, base);
    let hidden = seq!['.'] + ext;
    if ext.len() > 0 {
        assert(none + seq!['.'] + ext =~= hidden);
        lemma_rfind_char(none, ext);
        assert(!hidden.contains('/')) by {
            if hidden.contains('/') {
                let i = choose|i: int| 0 <= i < hidden.len() && hidden[i] == '/';
                if i > 0 {
                    assert(ext[i - 1] == '/');
                }
            }
        }
        assert(hidden.len() >= 2);
        if hidden == ".."@ {
            assert(hidden[1] == '.');
            assert(ext[0] == hidden[1]);
            assert(ext.contains(ext[0]));
        }
        lemma_file_in(dir, hidden);
    }
    text::law_split(none, '/', none);
    assert(last_step(seq![none]) is None) by {
        assert(seq![none].drop_last() =~= seq![]);
        reveal_with_fuel(last_step, 2);
    }
    assert(!".."@.contains('/'));
    lemma_file_in(dir, ".."@);
}

/// The file that a path ends in.
proof fn lemma_file_in(dir: Seq<char>, name: Seq<char>)
    requires
        !name.contains('/'),
        name.len() > 0,
        name != "."@,
    ensures
        last_step(text::split_on(name, '/')) == Some(name),
        last_step(text::split_on(dir + seq!['/'] + name, '/')) == Some(name),
{
    text::law_split(name, '/', seq![]);
    memory_log::lemma_split_last(dir, '/', name);
}

proof fn lemma_rfind_char(a: Seq<char>, b: Seq<char>)
    requires
        !b.contains('.'),
    ensures
        rfind_char(a + seq!['.'] + b, '.') == Some(a.len() as int),
    decreases b.len(),
{
    let s = a + seq!['.'] + b;
    if b.len() == 0 {
        assert(s.last() == '.');
    } else {
        let less = b.drop_last();
        assert(b.contains(b.last()));
        assert(s.last() == b.last());
        assert(s.drop_last() =~= a + seq!['.'] + less);
        assert forall|i: int| 0 <= i < less.len() implies less[i] != '.' by {
            assert(b.contains(b[i]));
        }
        lemma_rfind_char(a, less);
    }
}

proof fn lemma_rfind_none(s: Seq<char>)
    requires
        !s.contains('.'),
    ensures
        rfind_char(s, '.') is None,
    decreases s.len(),
{
    if s.len() > 0 {
        assert(s.contains(s.last()));
        let less = s.drop_last();
        assert forall|i: int| 0 <= i < less.len() implies less[i] != '.' by {
            assert(s.contains(s[i]));
        }
        lemma_rfind_none(less);
    }
}

/// Where images are kept: in their directory, whatever slashes it ends with, under a name of
/// the time, what the image is called, and its type; those from the web in the directory
/// `web` below it.
pub proof fn law_where_images_are_kept(
    dir: Seq<char>,
    name: Seq<char>,
    time: Seq<char>,
    path: Seq<char>,
    ext: Seq<char>,
)
    ensures
        dir.len() == 0 || dir.last() != '/' ==> in_directory(dir, name) == dir + "/"@ + name,
        dir.len() == 0 || dir.last() != '/' ==> web_directory(dir) == dir + "/web"@,
        in_directory(dir.push('/'), name) == in_directory(dir, name),
        web_directory(dir.push('/')) == web_directory(dir),
        attachment_name(time, path, ext) == time + "_"@ + image_stem(path) + "."@ + ext,
{
    text::law_trim_char(dir, '/');
}

/// What an image from the web is called: by its time, with a number behind it for all but the
/// first of that time.
pub proof fn law_web_name(now: LocalTime, n: nat)
    ensures
        n == 0 ==> web_name(now, n) == "web_"@ + clock::formatted(now, "%Y%m%d_%H%M%S_%3f"@)
            + ".webp"@,
        n > 0 ==> web_name(now, n) == "web_"@ + clock::formatted(now, "%Y%m%d_%H%M%S_%3f"@) + "_"@
            + number::decimal(n) + ".webp"@,
{
    let front = "web_"@ + clock::formatted(now, "%Y%m%d_%H%M%S_%3f"@);
    if n == 0 {
        assert(front + number_part(n) =~= front);
    } else {
        assert(front + number_part(n) =~= front + "_"@ + number::decimal(n));
    }
}

}
